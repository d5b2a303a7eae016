//! The keyboard section of `defsrc` or of one layer.
use vstd::prelude::*;
use vstd::string::*;
use std::sync::Arc;
use crate::display::token_readable;
use crate::text::str_eq;
use crate::layout::GridLayoutV;
use crate::parser::{DefSrc, DefSrcV, Layer, LayerV, Model, opt_view, strings_view};
use crate::render::keyboard::{
    DisplayContext, KeyCell, KeyCellV, KeyDataProcessor, KeyboardRenderer, cells_view, esc,
    esc_spec, grid_html, rows_fit,
};

verus! {

/// Pre-built renderer for one keyboard section (`defsrc` or a layer).
///
/// Construct it with `from_defsrc` or `from_layer`, then call `build_html`
/// to emit the HTML.
pub struct LayerRenderer {
    heading: String,
    subtitle: Option<String>,
    desc: Option<String>,
    deprecate: bool,
    keyboard: KeyboardRenderer,
}

/// What a `LayerRenderer` is: its heading, subtitle, description, whether
/// it is deprecated, its key cells and its grid.
pub struct LayerRendererV {
    pub heading: Seq<char>,
    pub subtitle: Option<Seq<char>>,
    pub desc: Option<Seq<char>>,
    pub deprecate: bool,
    pub keys: Seq<KeyCellV>,
    pub layout: GridLayoutV,
}

impl View for LayerRenderer {
    type V = LayerRendererV;

    closed spec fn view(&self) -> LayerRendererV {
        LayerRendererV {
            heading: self.heading@,
            subtitle: opt_view(self.subtitle),
            desc: opt_view(self.desc),
            deprecate: self.deprecate,
            keys: cells_view(self.keyboard.keys@),
            layout: (*self.keyboard.layout)@,
        }
    }
}

/// The cell `c`, marked as passing its key through or not.
pub open spec fn with_passthrough(c: KeyCellV, passthrough: bool) -> KeyCellV {
    KeyCellV { passthrough, ..c }
}

/// The token shown for each `defsrc` key in the layer `l`, and whether it
/// passes the key through: a `deflayer` gives its i-th token (none past its
/// end), a `deflayermap` gives the action mapped to the key, or the key
/// itself, passed through.
pub open spec fn layer_tokens(src_keys: Seq<Seq<char>>, l: LayerV) -> Seq<(Seq<char>, bool)> {
    match l {
        LayerV::Full { keys, .. } => Seq::new(
            src_keys.len(),
            |i: int|
                if i < keys.len() {
                    (keys[i], false)
                } else {
                    (Seq::<char>::empty(), false)
                },
        ),
        LayerV::Sparse { map, .. } => Seq::new(
            src_keys.len(),
            |i: int|
                if map.contains_key(src_keys[i]) {
                    (map[src_keys[i]], false)
                } else {
                    (src_keys[i], true)
                },
        ),
    }
}

/// The section of the `defsrc` keys.
pub open spec fn defsrc_section<D: KeyDataProcessor + ?Sized>(
    src: DefSrcV,
    aliases: Map<Seq<char>, Seq<char>>,
    display: &D,
) -> LayerRendererV {
    LayerRendererV {
        heading: match src.title {
            Some(t) => t,
            None => "defsrc"@,
        },
        subtitle: None,
        desc: src.desc,
        deprecate: false,
        keys: Seq::new(
            src.keys.len(),
            |i: int| with_passthrough(display.spec_process(src.keys[i], aliases), false),
        ),
        layout: src.layout,
    }
}

/// Whether the layer `l` is deprecated.
pub open spec fn layer_deprecated(l: LayerV) -> bool {
    match l {
        LayerV::Full { deprecate, .. } => deprecate,
        LayerV::Sparse { deprecate, .. } => deprecate,
    }
}

/// The name and the comment title and description of a layer.
pub open spec fn layer_meta(l: LayerV) -> (Seq<char>, Option<Seq<char>>, Option<Seq<char>>) {
    match l {
        LayerV::Full { name, title, desc, .. } => (name, title, desc),
        LayerV::Sparse { name, title, desc, .. } => (name, title, desc),
    }
}

/// The section of the layer `l`: its heading is its comment title, else its
/// name; a title other than the name shows the name as subtitle.
pub open spec fn layer_section<D: KeyDataProcessor + ?Sized>(
    l: LayerV,
    src: DefSrcV,
    aliases: Map<Seq<char>, Seq<char>>,
    display: &D,
) -> LayerRendererV {
    let (name, title, desc) = layer_meta(l);
    let toks = layer_tokens(src.keys, l);
    LayerRendererV {
        heading: match title {
            Some(t) => t,
            None => name,
        },
        subtitle: match title {
            Some(t) => if t != name {
                Some(name)
            } else {
                None
            },
            None => None,
        },
        desc,
        deprecate: layer_deprecated(l),
        keys: Seq::new(
            toks.len(),
            |i: int| with_passthrough(display.spec_process(toks[i].0, aliases), toks[i].1),
        ),
        layout: src.layout,
    }
}

/// The HTML of a section; a deprecated section shows nothing.
pub open spec fn section_html(r: LayerRendererV) -> Seq<char> {
    if r.deprecate {
        seq![]
    } else {
        section_body_html(r)
    }
}

/// The HTML of a section that is shown.
pub open spec fn section_body_html(r: LayerRendererV) -> Seq<char> {
    "<section class=\"keyboard\">"@ + "<h3>"@ + esc_spec(r.heading) + "</h3>"@ + match r.subtitle {
        Some(s) => "<p class=\"keyboard-subtitle\">"@ + esc_spec(s) + "</p>"@,
        None => seq![],
    } + match r.desc {
        Some(d) => "<p class=\"keyboard-desc\">"@ + esc_spec(d) + "</p>"@,
        None => seq![],
    } + grid_html(r.keys, r.layout.cells) + "</section>"@
}

fn clone_opt(o: &Option<String>) -> (r: Option<String>)
    ensures
        opt_view(r) == opt_view(*o),
{
    match o {
        Some(s) => Some(s.clone()),
        None => None,
    }
}

/// Resolves a raw action token through the `KeyDataProcessor` into a
/// key cell, marked as passing its key through or not.
fn resolve_cell<D: KeyDataProcessor + ?Sized>(
    token: &str,
    passthrough: bool,
    display: &D,
    ctx: &DisplayContext,
) -> (r: KeyCell)
    requires
        token_readable(token@),
    ensures
        r@ == with_passthrough(display.spec_process(token@, ctx.aliases@), passthrough),
{
    let mut cell = display.process(token, ctx);
    cell.passthrough = passthrough;
    cell
}

impl LayerRenderer {
    /// Builds the renderer of the `defsrc` section.
    pub fn from_defsrc<D: KeyDataProcessor + ?Sized>(src: &DefSrc, model: &Model, display: &D) -> (r:
        Self)
        requires
            forall|i: int| 0 <= i < src.keys@.len() ==> token_readable(#[trigger] src.keys@[i]@),
        ensures
            r@ == defsrc_section(src@, model.aliases@, display),
    {
        let ctx = DisplayContext { aliases: &model.aliases };
        let mut cells: Vec<KeyCell> = Vec::new();
        let mut i: usize = 0;
        while i < src.keys.len()
            invariant
                i <= src.keys@.len(),
                forall|k: int| 0 <= k < src.keys@.len() ==> token_readable(#[trigger] src.keys@[k]@),
                ctx.aliases@ == model.aliases@,
                cells_view(cells@) == defsrc_section(src@, model.aliases@, display).keys.subrange(
                    0,
                    i as int,
                ),
            decreases src.keys@.len() - i,
        {
            let ghost old_cells = cells@;
            let t = src.keys[i].as_str();
            assert(t@ == src.keys@[i as int]@);
            let c = resolve_cell(t, false, display, &ctx);
            assert(c@ == with_passthrough(display.spec_process(t@, ctx.aliases@), false));
            assert(ctx.aliases@ == model.aliases@);
            cells.push(c);
            assert(strings_view(src.keys@)[i as int] == src.keys@[i as int]@);
            assert(src@.keys[i as int] == src.keys@[i as int]@);
            assert(defsrc_section(src@, model.aliases@, display).keys[i as int] == with_passthrough(display.spec_process(src@.keys[i as int], model.aliases@), false));
            assert(cells_view(cells@) =~= cells_view(old_cells).push(c@));
            i = i + 1;
            assert(cells_view(cells@) =~= defsrc_section(src@, model.aliases@, display).keys.subrange(
                0,
                i as int,
            ));
        }
        assert(defsrc_section(src@, model.aliases@, display).keys.subrange(0, i as int)
            =~= defsrc_section(src@, model.aliases@, display).keys);
        let heading = match &src.title {
            Some(t) => t.clone(),
            None => "defsrc".to_owned(),
        };
        let layout = Arc::new(src.layout.clone());
        LayerRenderer {
            heading,
            subtitle: None,
            desc: clone_opt(&src.desc),
            deprecate: false,
            keyboard: KeyboardRenderer { keys: cells, layout },
        }
    }

    /// Builds the renderer of a layer (`deflayer` or `deflayermap`).
    pub fn from_layer<D: KeyDataProcessor + ?Sized>(layer: &Layer, model: &Model, display: &D) -> (r:
        Self)
        requires
            forall|i: int|
                0 <= i < model.src.keys@.len() ==> token_readable(
                    (#[trigger] layer_tokens(model.src@.keys, layer@)[i]).0,
                ),
        ensures
            r@ == layer_section(layer@, model.src@, model.aliases@, display),
    {
        let ctx = DisplayContext { aliases: &model.aliases };
        let src = &model.src;
        let ghost toks = layer_tokens(src@.keys, layer@);
        let ghost want = layer_section(layer@, model.src@, model.aliases@, display);
        let mut cells: Vec<KeyCell> = Vec::new();
        let mut i: usize = 0;
        let n = src.keys.len();
        while i < n
            invariant
                n == src.keys@.len(),
                toks == layer_tokens(src@.keys, layer@),
                toks.len() == n,
                want == layer_section(layer@, model.src@, model.aliases@, display),
                src == &model.src,
                i <= n,
                forall|k: int| 0 <= k < n ==> token_readable((#[trigger] toks[k]).0),
                ctx.aliases@ == model.aliases@,
                cells_view(cells@) == want.keys.subrange(0, i as int),
            decreases n - i,
        {
            let ghost old_cells = cells@;
            assert(strings_view(src.keys@)[i as int] == src.keys@[i as int]@);
            let c = match layer {
                Layer::Full { keys, .. } => {
                    assert(layer@ is Full);
                    assert(layer@->Full_keys == strings_view(keys@));
                    if i < keys.len() {
                        assert(strings_view(keys@)[i as int] == keys@[i as int]@);
                        assert(toks[i as int] == (keys@[i as int]@, false));
                        resolve_cell(keys[i].as_str(), false, display, &ctx)
                    } else {
                        proof {
                            reveal_strlit("");
                            assert(toks[i as int] == (Seq::<char>::empty(), false));
                            assert(""@ =~= Seq::<char>::empty());
                        }
                        resolve_cell("", false, display, &ctx)
                    }
                },
                Layer::Sparse { map, .. } => {
                    assert(layer@ is Sparse);
                    assert(layer@->map == map@);
                    let k = src.keys[i].as_str();
                    assert(k@ == src@.keys[i as int]);
                    match map.get(k) {
                        Some(action) => {
                            assert(toks[i as int] == (action@, false));
                            resolve_cell(action.as_str(), false, display, &ctx)
                        },
                        None => {
                            assert(toks[i as int] == (k@, true));
                            resolve_cell(k, true, display, &ctx)
                        },
                    }
                },
            };
            cells.push(c);
            assert(cells_view(cells@) =~= cells_view(old_cells).push(c@));
            i = i + 1;
            assert(cells_view(cells@) =~= want.keys.subrange(0, i as int));
        }
        assert(want.keys.subrange(0, i as int) =~= want.keys);
        let (name, title, desc, deprecate) = match layer {
            Layer::Full { name, title, desc, deprecate, .. } => (name, title, desc, *deprecate),
            Layer::Sparse { name, title, desc, deprecate, .. } => (name, title, desc, *deprecate),
        };
        let heading = match title {
            Some(t) => t.clone(),
            None => name.clone(),
        };
        // When a comment title overrides the inherent layer name, show the
        // layer name as a subtitle so the kanata identifier is not lost.
        let subtitle = match title {
            Some(t) => if !str_eq(t.as_str(), name.as_str()) {
                Some(name.clone())
            } else {
                None
            },
            None => None,
        };
        let layout = Arc::new(src.layout.clone());
        assert(layer_meta(layer@) == (name@, opt_view(*title), opt_view(*desc)));
        assert(heading@ == want.heading);
        assert(opt_view(subtitle) == want.subtitle);
        LayerRenderer {
            heading,
            subtitle,
            desc: clone_opt(desc),
            deprecate,
            keyboard: KeyboardRenderer { keys: cells, layout },
        }
    }

    /// Emits the HTML of this section, or nothing when it is deprecated.
    pub fn build_html(self) -> (r: String)
        requires
            rows_fit(self@.layout.cells),
        ensures
            r@ == section_html(self@),
    {
        let ghost me = self@;
        if self.deprecate {
            return String::new();
        }
        let mut html = String::new();
        html.append("<section class=\"keyboard\">");
        html.append("<h3>");
        html.append(esc(self.heading.as_str()).as_str());
        html.append("</h3>");
        if let Some(sub) = &self.subtitle {
            html.append("<p class=\"keyboard-subtitle\">");
            html.append(esc(sub.as_str()).as_str());
            html.append("</p>");
        }
        if let Some(d) = &self.desc {
            html.append("<p class=\"keyboard-desc\">");
            html.append(esc(d.as_str()).as_str());
            html.append("</p>");
        }
        let grid = self.keyboard.build_html();
        html.append(grid.as_str());
        html.append("</section>");
        assert(html@ =~= section_html(me));
        html
    }
}


// ---------------------------------------------------------------------------
// What a section shows
// ---------------------------------------------------------------------------

/// In a `deflayermap` section, each `defsrc` key the layer maps shows its
/// action; each other one shows the `defsrc` key itself, passed through.
pub proof fn law_sparse_layer_keys<D: KeyDataProcessor + ?Sized>(
    l: LayerV,
    src: DefSrcV,
    aliases: Map<Seq<char>, Seq<char>>,
    display: &D,
    i: int,
)
    requires
        l is Sparse,
        0 <= i < src.keys.len(),
    ensures
        layer_section(l, src, aliases, display).keys.len() == src.keys.len(),
        l->map.contains_key(src.keys[i]) ==> layer_section(l, src, aliases, display).keys[i]
            == with_passthrough(display.spec_process(l->map[src.keys[i]], aliases), false),
        !l->map.contains_key(src.keys[i]) ==> layer_section(l, src, aliases, display).keys[i]
            == with_passthrough(display.spec_process(src.keys[i], aliases), true),
{
}

/// A `deflayer` section has one key per `defsrc` key: the layer's own keys
/// in order, then empty keys where the layer is shorter; none is passed
/// through.
pub proof fn law_full_layer_keys<D: KeyDataProcessor + ?Sized>(
    l: LayerV,
    src: DefSrcV,
    aliases: Map<Seq<char>, Seq<char>>,
    display: &D,
    i: int,
)
    requires
        l is Full,
        0 <= i < src.keys.len(),
    ensures
        layer_section(l, src, aliases, display).keys.len() == src.keys.len(),
        i < l->Full_keys.len() ==> layer_section(l, src, aliases, display).keys[i]
            == with_passthrough(display.spec_process(l->Full_keys[i], aliases), false),
        i >= l->Full_keys.len() ==> layer_section(l, src, aliases, display).keys[i]
            == with_passthrough(display.spec_process(Seq::empty(), aliases), false),
{
}

/// A layer's section is headed by its comment title, else by its name; a
/// title other than the name keeps the name as subtitle. Every section
/// places its keys on the `defsrc` grid; a layer's section is deprecated
/// when the layer is, and the `defsrc` section never is.
pub proof fn law_layer_heading<D: KeyDataProcessor + ?Sized>(
    l: LayerV,
    src: DefSrcV,
    aliases: Map<Seq<char>, Seq<char>>,
    display: &D,
)
    ensures
        layer_section(l, src, aliases, display).heading == match layer_meta(l).1 {
            Some(t) => t,
            None => layer_meta(l).0,
        },
        layer_section(l, src, aliases, display).subtitle is Some <==> (layer_meta(l).1 matches Some(
            t,
        ) && t != layer_meta(l).0),
        layer_section(l, src, aliases, display).subtitle matches Some(n) ==> n == layer_meta(l).0,
        layer_section(l, src, aliases, display).layout == src.layout,
        defsrc_section(src, aliases, display).layout == src.layout,
        layer_section(l, src, aliases, display).deprecate == layer_deprecated(l),
        !defsrc_section(src, aliases, display).deprecate,
{
}


/// A shown section with a description carries it, escaped, in a
/// `keyboard-desc` paragraph right before its grid; the section opens with
/// its escaped heading.
pub proof fn law_section_shows_desc(r: LayerRendererV, d: Seq<char>)
    requires
        !r.deprecate,
        r.desc == Some(d),
    ensures
        exists|a: Seq<char>|
            section_html(r) == "<section class=\"keyboard\">"@ + "<h3>"@ + esc_spec(r.heading)
                + "</h3>"@ + a + "<p class=\"keyboard-desc\">"@ + esc_spec(d) + "</p>"@
                + grid_html(r.keys, r.layout.cells) + "</section>"@,
{
    let a = match r.subtitle {
        Some(s) => "<p class=\"keyboard-subtitle\">"@ + esc_spec(s) + "</p>"@,
        None => seq![],
    };
    assert(section_html(r) =~= "<section class=\"keyboard\">"@ + "<h3>"@ + esc_spec(r.heading) + "</h3>"@
        + a + "<p class=\"keyboard-desc\">"@ + esc_spec(d) + "</p>"@ + grid_html(
        r.keys,
        r.layout.cells,
    ) + "</section>"@);
}

} // verus!
