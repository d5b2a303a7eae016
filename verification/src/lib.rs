//! Reads kanata keyboard configurations and renders their layers as HTML:
//! `(include ...)` splicing, an S-expression reader, the model of `defsrc`,
//! aliases and layers, the grid layout of the keys, and the HTML pages.
pub mod sexpr;
pub mod text;
pub mod layout;
pub mod strmap;
pub mod parser;
pub mod display;
pub mod render;
pub mod svgs;
pub mod preprocess;

pub use display::{DefaultDisplay, DisplayContext, DisplayResult, KeyDisplay};
pub use layout::{GridLayout, GridPos, compute_layout};
pub use parser::{DefSrc, Layer, Model, parse};
pub use preprocess::{PreprocessError, PreprocessKind, Preprocessor};
pub use render::{CSS, render_fragment, render_full_html};

use vstd::prelude::*;
use vstd::string::*;
use crate::parser::parse_model;
use crate::render::{model_renderable, page_html, renderable};
use crate::render::keyboard::DefaultKeyDataProcessor;
use crate::sexpr::{ParseError, lex_error_message, lex_overruns, raw_string_overruns};

verus! {

/// Why rendering a configuration failed: its includes could not be spliced,
/// or it does not read.
#[derive(Debug)]
pub enum Error {
    Preprocess(PreprocessError),
    Parse(ParseError),
}

/// Renders the spliced configuration `source` for `platform` as a whole
/// HTML page, with the stylesheet inline, or linked when `is_dev_mode` is
/// set. `None` where the source cannot be drawn: a raw string that runs
/// past the end of the source, or a key that cannot be read (see
/// `model_renderable`).
pub fn render_source(source: &str, platform: &str, is_dev_mode: bool) -> (r: Option<
    Result<String, Error>,
>)
    requires
        source.spec_bytes().len() < usize::MAX,
    ensures
        lex_overruns(source@) ==> r is None,
        !lex_overruns(source@) ==> match parse_model(source.spec_bytes(), platform@) {
            Err(k) => r matches Some(Err(Error::Parse(e))) && e.0@ == lex_error_message(k),
            Ok(m) => if model_renderable(m) {
                r matches Some(Ok(h)) && h@ == page_html(m, &DefaultKeyDataProcessor, is_dev_mode)
            } else {
                r is None
            },
        },
{
    if raw_string_overruns(source) {
        return None;
    }
    match parse(source, platform) {
        Err(e) => Some(Err(Error::Parse(e))),
        Ok(model) => {
            if renderable(&model) {
                Some(Ok(render_full_html(&model, &DefaultKeyDataProcessor, is_dev_mode)))
            } else {
                None
            }
        },
    }
}

} // verus!
