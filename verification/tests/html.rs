use kanata_mapping_viewer_core::display::{DefaultDisplay, DisplayContext, KeyDisplay};
use kanata_mapping_viewer_core::layout::{GridLayout, GridPos};
use kanata_mapping_viewer_core::render::layer::LayerRenderer;
use kanata_mapping_viewer_core::sexpr;
use kanata_mapping_viewer_core::strmap::StrMap;
use kanata_mapping_viewer_core::parser::{Layer, parse};
use kanata_mapping_viewer_core::render::keyboard::{
    DefaultKeyDataProcessor, KeyCell, KeyboardRenderer, esc,
};
use kanata_mapping_viewer_core::render::{CSS, render_fragment, render_full_html, renderable};
use kanata_mapping_viewer_core::svgs::KEY;
use kanata_mapping_viewer_core::{Error, render_source};
use std::sync::Arc;

fn key_bg() -> String {
    let start = KEY.find('>').unwrap() + 1;
    let end = KEY.rfind("</svg>").unwrap();
    format!(
        "<svg class=\"key-bg\" xmlns=\"http://www.w3.org/2000/svg\" viewBox=\"0 0 100 100\" preserveAspectRatio=\"none\">{}</svg>",
        &KEY[start..end]
    )
}

#[test]
fn esc_replaces_the_four_specials() {
    assert_eq!(esc("<a href=\"x\">&</a>"), "&lt;a href=&quot;x&quot;&gt;&amp;&lt;/a&gt;");
    assert_eq!(esc("plain é text"), "plain é text");
    assert_eq!(esc(""), "");
}

#[test]
fn key_cell_html() {
    let cell = KeyCell {
        text: "a<b".to_string(),
        tooltip: Some("t\"q".to_string()),
        extra_classes: vec!["alias".to_string()],
        passthrough: true,
    };
    let html = cell.build_html(&GridPos { row: 2, col: 0, span: 3 });
    let want = format!(
        "<div class=\"key alias passthrough\" style=\"grid-row: 3; grid-column: span 3;\">{}<span class=\"label\">a&lt;b</span><span class=\"tooltip\">t&quot;q</span></div>",
        key_bg()
    );
    assert_eq!(html, want);
}

#[test]
fn key_cell_html_without_classes() {
    let cell = KeyCell { text: "x".to_string(), tooltip: None, extra_classes: vec![], passthrough: false };
    let html = cell.build_html(&GridPos { row: 9, col: 4, span: 1 });
    let want = format!(
        "<div class=\"key \" style=\"grid-row: 10; grid-column: span 1;\">{}<span class=\"label\">x</span></div>",
        key_bg()
    );
    assert_eq!(html, want);
}

#[test]
fn keyboard_skips_keys_without_a_cell() {
    let keys = vec![
        KeyCell { text: "a".to_string(), tooltip: None, extra_classes: vec![], passthrough: false },
        KeyCell { text: "b".to_string(), tooltip: None, extra_classes: vec![], passthrough: false },
    ];
    let layout = GridLayout { cells: vec![GridPos { row: 0, col: 0, span: 1 }], n_rows: 1, n_cols: 1 };
    let html = KeyboardRenderer { keys, layout: Arc::new(layout) }.build_html();
    let want = format!(
        "<div class=\"grid\"><div class=\"key \" style=\"grid-row: 1; grid-column: span 1;\">{}<span class=\"label\">a</span></div></div>",
        key_bg()
    );
    assert_eq!(html, want);
}

#[test]
fn fragment_sections_in_order() {
    let src = "(defsrc a b)\n(defalias x y)\n;; name: Navigation\n(deflayermap (nav) a @x)\n(deflayer base q)\n";
    let model = parse(src, "win").unwrap();
    assert!(renderable(&model));
    let html = render_fragment(&model, &DefaultKeyDataProcessor);
    assert!(html.starts_with("<style>.key-bg{"));
    assert!(html.ends_with("</section></div>"));
    let d = html.find("<h3>defsrc</h3>").unwrap();
    let n = html.find("<h3>Navigation</h3><p class=\"keyboard-subtitle\">nav</p>").unwrap();
    let b = html.find("<h3>base</h3>").unwrap();
    assert!(d < n && n < b);
    // the alias shows its definition; the unmapped key passes through
    assert!(html.contains("<span class=\"label\">@x</span><span class=\"tooltip\">y</span>"));
    assert!(html.contains("<div class=\"key passthrough\" style=\"grid-row: 1; grid-column: span 1;\">"));
    // the short deflayer is padded with an empty key
    assert!(html.contains("<span class=\"label\"></span>"));
}

#[test]
fn full_page_inline_or_linked_style() {
    let model = parse("(defsrc a)", "win").unwrap();
    let page = render_full_html(&model, &DefaultKeyDataProcessor, false);
    assert!(page.starts_with("\n<!DOCTYPE html>\n<html lang=\"en\">"));
    assert!(page.contains(&format!("<style>{}</style>", CSS)));
    assert!(page.contains("<title>Kanata Mapping Viewer</title>"));
    assert!(page.ends_with("\n    </body>\n</html>\n"));
    // the page loads nothing from elsewhere
    assert!(!page.contains("<link"));
    assert!(!page.contains("<script"));
    assert!(!page.contains("https://"));
    let dev = render_full_html(&model, &DefaultKeyDataProcessor, true);
    assert!(dev.contains("<link rel=\"stylesheet\" href=\"./crates/core/assets/style.css\">"));
    assert!(!dev.contains(CSS));
}

#[test]
fn render_source_pipeline() {
    let page = render_source("(defsrc a)", "win", false).unwrap().unwrap();
    assert!(page.contains("<span class=\"label\">a</span>"));
    match render_source("(defsrc a", "win", false) {
        Some(Err(Error::Parse(e))) => assert_eq!(e.0, "unclosed ("),
        _ => panic!("expected a parse error"),
    }
    assert!(render_source("r#\"abc\"", "win", false).is_none());
}

#[test]
fn wide_keys_from_defsrc_spacing() {
    let model = parse("(defsrc a  b\n c)", "win").unwrap();
    let html = render_fragment(&model, &DefaultKeyDataProcessor);
    assert!(html.contains("style=\"grid-row: 1; grid-column: span 3;\"><svg"));
    assert!(html.contains("style=\"grid-row: 1; grid-column: span 1;\"><svg"));
    assert!(html.contains("style=\"grid-row: 2; grid-column: span 1;\"><svg"));
}

#[test]
fn deprecated_layer_shows_no_section() {
    let mut model = parse("(defsrc a)\n(deflayer old b)\n(deflayer new c)\n", "win").unwrap();
    model.layers[0] = Layer::Full {
        name: "old".to_string(),
        keys: vec!["b".to_string()],
        title: None,
        desc: None,
        deprecate: true,
    };
    let html = render_fragment(&model, &DefaultKeyDataProcessor);
    assert!(!html.contains("<h3>old</h3>"));
    assert!(html.contains("<h3>new</h3>"));
}

fn unescape(s: &str) -> String {
    let mut out = String::new();
    let mut rest = s;
    while !rest.is_empty() {
        let (c, n) = if rest.starts_with("&lt;") {
            ('<', 4)
        } else if rest.starts_with("&gt;") {
            ('>', 4)
        } else if rest.starts_with("&quot;") {
            ('"', 6)
        } else if rest.starts_with("&amp;") {
            ('&', 5)
        } else {
            let c = rest.chars().next().unwrap();
            (c, c.len_utf8())
        };
        out.push(c);
        rest = &rest[n..];
    }
    out
}

#[test]
fn esc_round_trips() {
    for s in ["&lt;", "a<b>\"c\"&d", "&amp;amp;", "é & ü"] {
        assert_eq!(unescape(&esc(s)), s);
    }
}

#[test]
fn layer_renderer_sections() {
    let model = parse(";; name: Src\n(defsrc a b)\n(deflayer base x)\n", "win").unwrap();
    let html = LayerRenderer::from_defsrc(&model.src, &model, &DefaultKeyDataProcessor).build_html();
    assert!(html.starts_with("<section class=\"keyboard\"><h3>Src</h3><div class=\"grid\">"));
    assert!(html.ends_with("</div></section>"));
    let html =
        LayerRenderer::from_layer(&model.layers[0], &model, &DefaultKeyDataProcessor).build_html();
    assert!(html.starts_with("<section class=\"keyboard\"><h3>base</h3>"));
    assert!(html.contains("<span class=\"label\">x</span>"));
}

#[test]
fn clones_keep_nodes_and_results() {
    let top = sexpr::parse("(a (b c))").unwrap();
    let copy = top[0].clone();
    assert_eq!(format!("{copy:?}"), format!("{:?}", top[0]));
    let m = StrMap::new();
    let ctx = DisplayContext { aliases: &m };
    let r = DefaultDisplay.display("@x", &ctx);
    let c = r.clone();
    assert_eq!(c.label, r.label);
    assert_eq!(c.classes, r.classes);
}
