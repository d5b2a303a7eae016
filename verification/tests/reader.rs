use kanata_mapping_viewer_core::sexpr::{Sexp, parse, raw_string_overruns};

#[test]
fn reader_list_items_and_spans() {
    let src = "(defsrc a bc)";
    let top = parse(src).unwrap();
    assert_eq!(top.len(), 1);
    let span = top[0].span();
    assert_eq!((span.start, span.end), (0, 13));
    match &top[0] {
        Sexp::List { items, .. } => {
            assert_eq!(items.len(), 3);
            assert_eq!(items[0].as_atom(), Some("defsrc"));
            assert_eq!(items[2].as_atom(), Some("bc"));
            let s = items[2].span();
            assert_eq!((s.start, s.end), (10, 12));
        }
        other => panic!("expected a list, got {other:?}"),
    }
    assert_eq!(top[0].as_atom(), None);
    assert_eq!(top[0].as_text(src), "(defsrc a bc)");
}

#[test]
fn reader_skips_comments_and_whitespace() {
    let top = parse(";; note\n  a ;; more\n b").unwrap();
    assert_eq!(top.len(), 2);
    assert_eq!(top[0].as_atom(), Some("a"));
    assert_eq!(top[1].as_atom(), Some("b"));
}

#[test]
fn reader_strings_keep_their_quotes() {
    let top = parse("(x \"a b\" r#\"c)\"#)").unwrap();
    match &top[0] {
        Sexp::List { items, .. } => {
            assert_eq!(items[1].as_atom(), Some("\"a b\""));
            assert_eq!(items[2].as_atom(), Some("r#\"c)\"#"));
        }
        other => panic!("expected a list, got {other:?}"),
    }
}

#[test]
fn reader_errors() {
    assert_eq!(parse(")").unwrap_err().0, "unexpected )");
    assert_eq!(parse("(a").unwrap_err().0, "unclosed (");
    assert_eq!(parse("(a").unwrap_err().to_string(), "parse error: unclosed (");
}

#[test]
fn reader_empty_source() {
    assert_eq!(parse("  ;; only a comment").unwrap().len(), 0);
}

#[test]
fn reader_raw_string_overrun_detected() {
    assert!(raw_string_overruns("r#\"abc\""));
    assert!(!raw_string_overruns("r#\"abc\"#"));
    assert!(!raw_string_overruns("(a b)"));
}

#[test]
fn reader_raw_string_without_hashes() {
    let top = parse("r\"x\" y").unwrap();
    assert_eq!(top.len(), 2);
    assert_eq!(top[0].as_atom(), Some("r\"x\""));
    let s = top[0].span();
    assert_eq!((s.start, s.end), (0, 4));
    assert_eq!(top[1].as_atom(), Some("y"));
    // a raw string without `#` keeps `\` and ends at the first quote
    let top = parse("(a r\"b\\\" c)").unwrap();
    match &top[0] {
        Sexp::List { items, .. } => assert_eq!(items[1].as_atom(), Some("r\"b\\\"")),
        other => panic!("expected a list, got {other:?}"),
    }
}

#[test]
fn reader_unterminated_raw_string() {
    assert_eq!(parse("r\"abc").unwrap_err().0, "unterminated raw string");
    assert_eq!(parse("(a r#\"abc").unwrap_err().0, "unterminated raw string");
}
