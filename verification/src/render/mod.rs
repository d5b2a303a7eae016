//! The HTML of a configuration: one keyboard section for `defsrc` and one
//! for each layer.
use vstd::prelude::*;
use crate::display::{is_readable, token_readable};
use crate::parser::{DefSrcV, Layer, LayerV, Model, ModelV, layers_view, strings_view};
use crate::render::keyboard::{KeyDataProcessor, rows_fit};
use crate::render::layer::{LayerRenderer, defsrc_section, layer_section, layer_tokens, section_html};
use crate::strmap::StrMap;
use crate::text::{string_of, to_chars};

pub mod keyboard;
pub mod layer;

verus! {

/// The index of the first `>` of `s` at or after `i`.
pub open spec fn first_gt(s: Seq<char>, i: nat) -> Option<nat>
    decreases s.len() - i,
{
    if i >= s.len() {
        None
    } else if s[i as int] == '>' {
        Some(i)
    } else {
        first_gt(s, i + 1)
    }
}

/// The characters `</svg>`.
pub open spec fn svg_close() -> Seq<char> {
    seq!['<', '/', 's', 'v', 'g', '>']
}

/// The start of the last `</svg>` of `s` that starts at or before `j`.
pub open spec fn last_svg_close(s: Seq<char>, j: nat) -> Option<nat>
    decreases j,
{
    if j + 6 <= s.len() && s.subrange(j as int, j + 6 as int) == svg_close() {
        Some(j)
    } else if j == 0 {
        None
    } else {
        last_svg_close(s, (j - 1) as nat)
    }
}

/// Where the content of an SVG starts: after the first `>`, or at 0.
pub open spec fn svg_inner_start(s: Seq<char>) -> nat {
    match first_gt(s, 0) {
        Some(i) => i + 1,
        None => 0,
    }
}

/// Where the content of an SVG ends: at the last `</svg>`, or at the end.
pub open spec fn svg_inner_end(s: Seq<char>) -> nat {
    if s.len() < 6 {
        s.len()
    } else {
        match last_svg_close(s, (s.len() - 6) as nat) {
            Some(j) => j,
            None => s.len(),
        }
    }
}

/// The content of the SVG `s`: between its opening tag and its closing `</svg>`.
pub open spec fn svg_inner_spec(s: Seq<char>) -> Seq<char> {
    s.subrange(svg_inner_start(s) as int, svg_inner_end(s) as int)
}

proof fn lemma_first_gt(s: Seq<char>, i: nat)
    ensures
        first_gt(s, i) matches Some(k) ==> i <= k < s.len(),
    decreases s.len() - i,
{
    if i < s.len() && s[i as int] != '>' {
        lemma_first_gt(s, i + 1);
    }
}

proof fn lemma_last_svg_close(s: Seq<char>, j: nat)
    ensures
        last_svg_close(s, j) matches Some(k) ==> k <= j && k + 6 <= s.len(),
    decreases j,
{
    if !(j + 6 <= s.len() && s.subrange(j as int, j + 6 as int) == svg_close()) && j > 0 {
        lemma_last_svg_close(s, (j - 1) as nat);
    }
}

/// The keycap drawing has its content between its tags.
pub proof fn lemma_key_svg()
    ensures
        svg_inner_start(crate::svgs::KEY@) <= svg_inner_end(crate::svgs::KEY@) <= crate::svgs::KEY@.len(),
{
    reveal_strlit("<svg xmlns=\"http://www.w3.org/2000/svg\" viewBox=\"0 0 100 100\"><rect x=\"3\" y=\"3\" width=\"94\" height=\"94\" rx=\"12\" ry=\"12\" fill=\"#fafafa\" stroke=\"#9a9a9a\" stroke-width=\"2\"/></svg>");
    let s = crate::svgs::KEY@;
    reveal_with_fuel(first_gt, 70);
    assert(s.subrange(s.len() - 6, s.len() as int) =~= svg_close());
    lemma_first_gt(s, 0);
}

/// The content of the SVG `svg`, between its opening tag and its closing `</svg>`.
pub(crate) fn svg_inner(svg: &str) -> (r: String)
    requires
        svg_inner_start(svg@) <= svg_inner_end(svg@),
    ensures
        r@ == svg_inner_spec(svg@),
{
    let v = to_chars(svg);
    let mut i: usize = 0;
    while i < v.len() && v[i] != '>'
        invariant
            i <= v@.len(),
            v@ == svg@,
            first_gt(v@, i as nat) == first_gt(v@, 0),
        decreases v@.len() - i,
    {
        i = i + 1;
    }
    let start = if i < v.len() {
        i + 1
    } else {
        0
    };
    let mut end = v.len();
    if v.len() >= 6 {
        let mut j = v.len() - 6;
        loop
            invariant_except_break
                end == v@.len(),
            invariant
                j + 6 <= v@.len(),
                v@ == svg@,
                last_svg_close(v@, j as nat) == last_svg_close(v@, (v@.len() - 6) as nat),
            ensures
                end == svg_inner_end(v@),
            decreases j,
        {
            if v[j] == '<' && v[j + 1] == '/' && v[j + 2] == 's' && v[j + 3] == 'v' && v[j + 4] == 'g'
                && v[j + 5] == '>' {
                assert(v@.subrange(j as int, j + 6) =~= svg_close());
                end = j;
                break ;
            }
            assert(v@.subrange(j as int, j + 6) != svg_close()) by {
                if v@.subrange(j as int, j + 6) == svg_close() {
                    assert(v@.subrange(j as int, j + 6)[0] == '<');
                    assert(v@.subrange(j as int, j + 6)[1] == '/');
                    assert(v@.subrange(j as int, j + 6)[2] == 's');
                    assert(v@.subrange(j as int, j + 6)[3] == 'v');
                    assert(v@.subrange(j as int, j + 6)[4] == 'g');
                    assert(v@.subrange(j as int, j + 6)[5] == '>');
                }
            }
            if j == 0 {
                break ;
            }
            j = j - 1;
        }
    }
    proof {
        lemma_first_gt(v@, 0);
        if v@.len() >= 6 {
            lemma_last_svg_close(v@, (v@.len() - 6) as nat);
        }
    }
    string_of(&v, start, end)
}

// ---------------------------------------------------------------------------
// The page
// ---------------------------------------------------------------------------

/// The stylesheet of the page: sections stacked vertically, each keyboard a
/// CSS grid, tooltips shown on hover.
pub const CSS: &'static str = "body{margin:0;padding:24px;background:#f4f4f2;color:#222;font-family:'JetBrains Mono',monospace;}.viewer{display:flex;flex-direction:column;gap:32px;}.keyboard h3{margin:0 0 4px 0;font-size:18px;}.keyboard-subtitle{margin:0 0 4px 0;color:#666;font-size:13px;}.keyboard-desc{margin:0 0 8px 0;color:#444;font-size:13px;white-space:pre-wrap;}.grid{display:grid;grid-auto-columns:56px;grid-auto-rows:56px;gap:4px;}.key{position:relative;display:flex;align-items:center;justify-content:center;text-align:center;font-size:12px;overflow:visible;}.key .label{padding:2px;word-break:break-all;}.key .tooltip{display:none;position:absolute;left:50%;top:100%;transform:translateX(-50%);background:#222;color:#fff;padding:4px 6px;border-radius:4px;white-space:pre;z-index:2;}.key:hover .tooltip{display:block;}";

/// The styles of the key backgrounds, carried by every fragment.
pub const KEY_STYLE: &'static str = "<style>.key-bg{position:absolute;inset:0;width:100%;height:100%;pointer-events:none;z-index:0;}.key>*:not(.key-bg){position:relative;z-index:1;}.key.passthrough .key-bg{opacity:0.35;}.key.alias .key-bg{filter:hue-rotate(140deg);}.key.unicode .key-bg{filter:hue-rotate(280deg);}.key.sexpr .key-bg{filter:hue-rotate(220deg);}</style>";

/// The page up to its style.
pub const PAGE_HEAD: &'static str = "\n<!DOCTYPE html>\n<html lang=\"en\">\n    <head>\n        <meta charset=\"utf-8\">\n        <meta name=\"viewport\" content=\"width=device-width, initial-scale=1\">\n        ";

/// The page between its style and its body.
pub const PAGE_MID: &'static str = "\n        <title>Kanata Mapping Viewer</title>\n    </head>\n    <body>\n        ";

/// The page after its body.
pub const PAGE_TAIL: &'static str = "\n    </body>\n</html>\n";

/// The style of a page made for development: a link to the stylesheet file.
pub const DEV_STYLE: &'static str = "<link rel=\"stylesheet\" href=\"./crates/core/assets/style.css\">";

/// The sections of the layers `layers`, one after the other.
pub open spec fn layers_html<D: KeyDataProcessor + ?Sized>(
    layers: Seq<LayerV>,
    src: DefSrcV,
    aliases: Map<Seq<char>, Seq<char>>,
    display: &D,
) -> Seq<char>
    decreases layers.len(),
{
    if layers.len() == 0 {
        seq![]
    } else {
        layers_html(layers.drop_last(), src, aliases, display) + section_html(
            layer_section(layers.last(), src, aliases, display),
        )
    }
}

/// The HTML fragment of the model `m`: the key styles, then inside the
/// viewer the `defsrc` section and the section of each layer in order.
pub open spec fn fragment_html<D: KeyDataProcessor + ?Sized>(m: ModelV, display: &D) -> Seq<char> {
    KEY_STYLE@ + "<div class=\"viewer\">"@ + section_html(defsrc_section(m.src, m.aliases, display))
        + layers_html(m.layers, m.src, m.aliases, display) + "</div>"@
}

/// The whole page of the model `m`: the stylesheet inline, or linked when
/// `dev` is set.
pub open spec fn page_html<D: KeyDataProcessor + ?Sized>(m: ModelV, display: &D, dev: bool) -> Seq<char> {
    PAGE_HEAD@ + (if dev {
        DEV_STYLE@
    } else {
        "<style>"@ + CSS@ + "</style>"@
    }) + PAGE_MID@ + fragment_html(m, display) + PAGE_TAIL@
}

/// The model `m` can be drawn: every token shown reads (see
/// `token_readable`), and each grid row can be numbered from 1.
pub open spec fn model_renderable(m: ModelV) -> bool {
    &&& rows_fit(m.src.layout.cells)
    &&& forall|i: int| 0 <= i < m.src.keys.len() ==> token_readable(#[trigger] m.src.keys[i])
    &&& forall|j: int, i: int|
        0 <= j < m.layers.len() && 0 <= i < m.src.keys.len() ==> token_readable(
            (#[trigger] layer_tokens(m.src.keys, m.layers[j])[i]).0,
        )
}

/// Whether every token that the layer `layer` shows for the keys `src_keys` reads.
fn layer_readable(layer: &Layer, src_keys: &Vec<String>) -> (r: bool)
    ensures
        r == forall|i: int|
            0 <= i < src_keys@.len() ==> token_readable(
                (#[trigger] layer_tokens(strings_view(src_keys@), layer@)[i]).0,
            ),
{
    let ghost toks = layer_tokens(strings_view(src_keys@), layer@);
    let mut i: usize = 0;
    while i < src_keys.len()
        invariant
            i <= src_keys@.len(),
            toks == layer_tokens(strings_view(src_keys@), layer@),
            forall|k: int| 0 <= k < i ==> token_readable((#[trigger] toks[k]).0),
        decreases src_keys@.len() - i,
    {
        assert(strings_view(src_keys@)[i as int] == src_keys@[i as int]@);
        let ok = match layer {
            Layer::Full { keys, .. } => {
                if i < keys.len() {
                    assert(strings_view(keys@)[i as int] == keys@[i as int]@);
                    is_readable(keys[i].as_str())
                } else {
                    proof {
                        reveal_strlit("");
                        assert(""@ =~= Seq::<char>::empty());
                    }
                    is_readable("")
                }
            },
            Layer::Sparse { map, .. } => {
                let k = src_keys[i].as_str();
                match map.get(k) {
                    Some(action) => is_readable(action.as_str()),
                    None => is_readable(k),
                }
            },
        };
        if !ok {
            assert(!token_readable(toks[i as int].0));
            return false;
        }
        i = i + 1;
    }
    true
}

/// Whether the model can be drawn (see `model_renderable`).
pub fn renderable(model: &Model) -> (r: bool)
    ensures
        r == model_renderable(model@),
{
    let cells = &model.src.layout.cells;
    let mut i: usize = 0;
    while i < cells.len()
        invariant
            i <= cells@.len(),
            cells == &model.src.layout.cells,
            forall|k: int| 0 <= k < i ==> (#[trigger] cells@[k]).row < usize::MAX,
        decreases cells@.len() - i,
    {
        if cells[i].row == usize::MAX {
            assert(model@.src.layout.cells[i as int] == cells@[i as int]);
            return false;
        }
        i = i + 1;
    }
    let keys = &model.src.keys;
    let mut i: usize = 0;
    while i < keys.len()
        invariant
            i <= keys@.len(),
            keys == &model.src.keys,
            forall|k: int| 0 <= k < i ==> token_readable(#[trigger] strings_view(keys@)[k]),
        decreases keys@.len() - i,
    {
        assert(strings_view(keys@)[i as int] == keys@[i as int]@);
        if !is_readable(keys[i].as_str()) {
            assert(model@.src.keys == strings_view(keys@));
            assert(!token_readable(model@.src.keys[i as int]));
            return false;
        }
        i = i + 1;
    }
    let ghost m = model@;
    let mut j: usize = 0;
    while j < model.layers.len()
        invariant
            j <= model.layers@.len(),
            m == model@,
            forall|jj: int, k: int|
                0 <= jj < j && 0 <= k < m.src.keys.len() ==> token_readable(
                    (#[trigger] layer_tokens(m.src.keys, m.layers[jj])[k]).0,
                ),
        decreases model.layers@.len() - j,
    {
        assert(layers_view(model.layers@)[j as int] == model.layers@[j as int]@);
        if !layer_readable(&model.layers[j], &model.src.keys) {
            proof {
                assert(m.src.keys == strings_view(model.src.keys@));
                let k = choose|k: int|
                    0 <= k < model.src.keys@.len() && !token_readable(
                        (#[trigger] layer_tokens(m.src.keys, m.layers[j as int])[k]).0,
                    );
                assert(!token_readable(layer_tokens(m.src.keys, m.layers[j as int])[k].0));
            }
            return false;
        }
        j = j + 1;
    }
    true
}

/// The HTML fragment of the model: the `defsrc` section and one section for
/// each layer, inside the viewer.
pub fn render_fragment<D: KeyDataProcessor + ?Sized>(model: &Model, display: &D) -> (r: String)
    requires
        model_renderable(model@),
    ensures
        r@ == fragment_html(model@, display),
{
    let ghost m = model@;
    let mut html = String::new();
    html.append(KEY_STYLE);
    html.append("<div class=\"viewer\">");
    proof {
        assert forall|i: int| 0 <= i < model.src.keys@.len() implies token_readable(
            #[trigger] model.src.keys@[i]@,
        ) by {
            assert(strings_view(model.src.keys@)[i] == model.src.keys@[i]@);
            assert(m.src.keys == strings_view(model.src.keys@));
            assert(token_readable(m.src.keys[i]));
        }
    }
    let src = LayerRenderer::from_defsrc(&model.src, model, display);
    html.append(src.build_html().as_str());
    let ghost start = html@;
    let mut j: usize = 0;
    while j < model.layers.len()
        invariant
            j <= model.layers@.len(),
            m == model@,
            model_renderable(m),
            html@ == start + layers_html(m.layers.subrange(0, j as int), m.src, m.aliases, display),
        decreases model.layers@.len() - j,
    {
        let layer = &model.layers[j];
        assert(m.layers[j as int] == layer@);
        assert forall|i: int| 0 <= i < model.src.keys@.len() implies token_readable(
            (#[trigger] layer_tokens(model.src@.keys, layer@)[i]).0,
        ) by {
            assert(token_readable(layer_tokens(m.src.keys, m.layers[j as int])[i].0));
        }
        let r = LayerRenderer::from_layer(layer, model, display);
        html.append(r.build_html().as_str());
        assert(m.layers.subrange(0, j + 1).drop_last() =~= m.layers.subrange(0, j as int));
        j = j + 1;
    }
    assert(m.layers.subrange(0, j as int) =~= m.layers);
    html.append("</div>");
    html
}

/// The whole HTML page of the model, with the stylesheet inline, or linked
/// when `is_dev_mode` is set.
pub fn render_full_html<D: KeyDataProcessor + ?Sized>(model: &Model, display: &D, is_dev_mode: bool) -> (r: String)
    requires
        model_renderable(model@),
    ensures
        r@ == page_html(model@, display, is_dev_mode),
{
    let fragment = render_fragment(model, display);
    let mut html = String::new();
    html.append(PAGE_HEAD);
    if is_dev_mode {
        html.append(DEV_STYLE);
    } else {
        html.append("<style>");
        html.append(CSS);
        html.append("</style>");
    }
    html.append(PAGE_MID);
    html.append(fragment.as_str());
    html.append(PAGE_TAIL);
    html
}

} // verus!
