use kanata_mapping_viewer_core::display::{DefaultDisplay, DisplayContext, KeyDisplay};
use kanata_mapping_viewer_core::render::keyboard::{DefaultKeyDataProcessor, KeyDataProcessor};
use kanata_mapping_viewer_core::strmap::StrMap;

fn aliases() -> StrMap {
    let mut m = StrMap::new();
    m.insert("x".to_string(), "(tap-hold 200 200 a b)".to_string());
    m.insert("x".to_string(), "y".to_string());
    m
}

#[test]
fn strmap_later_insert_wins() {
    let m = aliases();
    assert_eq!(m.get("x").map(|s| s.as_str()), Some("y"));
    assert_eq!(m.get("z"), None);
}

#[test]
fn default_display_alias() {
    let m = aliases();
    let ctx = DisplayContext { aliases: &m };
    let r = DefaultDisplay.display("@x", &ctx);
    assert_eq!(r.label, "@x");
    assert_eq!(r.tooltip.as_deref(), Some("y"));
    assert_eq!(r.classes, vec!["alias"]);
    let r = DefaultDisplay.display("@nope", &ctx);
    assert_eq!(r.tooltip, None);
    assert_eq!(r.classes, vec!["alias"]);
}

#[test]
fn default_display_unicode_and_sexpr() {
    let m = StrMap::new();
    let ctx = DisplayContext { aliases: &m };
    let r = DefaultDisplay.display("(unicode \"é\")", &ctx);
    assert_eq!(r.label, "é");
    assert_eq!(r.classes, vec!["unicode"]);
    let r = DefaultDisplay.display("(unicode r#\"\"\"#)", &ctx);
    assert_eq!(r.label, "\"");
    let r = DefaultDisplay.display("(unicode r\"x\")", &ctx);
    assert_eq!(r.label, "x");
    assert_eq!(r.classes, vec!["unicode"]);
    let r = DefaultDisplay.display("(tap-hold 200 200 a b)", &ctx);
    assert_eq!(r.label, "(tap-hold 200 200 a b)");
    assert_eq!(r.classes, vec!["sexpr"]);
    let r = DefaultDisplay.display("(unicode)", &ctx);
    assert_eq!(r.label, "(unicode)");
    assert_eq!(r.classes, vec!["sexpr"]);
    let r = DefaultDisplay.display("((a) b)", &ctx);
    assert_eq!(r.classes, vec!["sexpr"]);
    let r = DefaultDisplay.display("(", &ctx);
    assert_eq!(r.label, "(");
    assert_eq!(r.classes, vec!["sexpr"]);
}

#[test]
fn default_display_plain() {
    let m = StrMap::new();
    let ctx = DisplayContext { aliases: &m };
    let r = DefaultDisplay.display("lctl", &ctx);
    assert_eq!(r.label, "lctl");
    assert_eq!(r.tooltip, None);
    assert!(r.classes.is_empty());
}

#[test]
fn key_data_processor_marks_cells() {
    let m = aliases();
    let ctx = DisplayContext { aliases: &m };
    let c = DefaultKeyDataProcessor.process("@x", &ctx);
    assert_eq!(c.text, "@x");
    assert_eq!(c.tooltip.as_deref(), Some("y"));
    assert_eq!(c.extra_classes, vec!["alias".to_string()]);
    assert!(!c.passthrough);
    let c = DefaultKeyDataProcessor.process("(unicode x)", &ctx);
    assert_eq!(c.text, "x");
    assert_eq!(c.extra_classes, vec!["unicode".to_string()]);
}
