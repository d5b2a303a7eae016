# kanata_mapping_viewer_core

Reads [kanata](https://github.com/jtroo/kanata) `.kbd` configurations and
renders each `defsrc`, `deflayer` and `deflayermap` as a keyboard diagram in a
single static HTML page.

- `src/` is the library, verified with Verus: the `(include ...)` scan and
  the include walk with cycle detection (`preprocess`), the S-expression
  reader (`sexpr`), the model of a configuration with platform branches and
  `;; name:` / `;; desc:` comments (`parser`), the grid placement of the keys
  (`layout`), how keys are shown (`display`, `render::keyboard`) and the HTML
  sections and page (`render`).
- `app/main.rs` is the command line program: argument handling, reading the
  files the include walk asks for, and writing the page.
- `tests/` runs the library on concrete configurations.
