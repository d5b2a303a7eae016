use kanata_mapping_viewer_core::parser::{Layer, parse};

#[test]
fn parse_captures_layer_meta() {
    let src = "(defsrc a b c)\n;; name: My Layer\n;; desc: a description\n(deflayer base a b c)\n";
    let model = parse(src, "win").unwrap();
    assert_eq!(model.layers.len(), 1);
    match &model.layers[0] {
        Layer::Full { name, title, desc, .. } => {
            assert_eq!(name, "base");
            assert_eq!(title.as_deref(), Some("My Layer"));
            assert_eq!(desc.as_deref(), Some("a description"));
        }
        other => panic!("expected Full, got {other:?}"),
    }
}

#[test]
fn parse_captures_defsrc_meta() {
    let src = ";; name: Source\n;; desc: the source\n(defsrc a b c)\n";
    let model = parse(src, "win").unwrap();
    assert_eq!(model.src.title.as_deref(), Some("Source"));
    assert_eq!(model.src.desc.as_deref(), Some("the source"));
}

#[test]
fn parse_platform_branch_selected() {
    let src = "(defsrc a b)\n(platform (win) (deflayer w x y))\n(platform (linux) (deflayer l p q))\n";
    let model = parse(src, "linux").unwrap();
    assert_eq!(model.layers.len(), 1);
    match &model.layers[0] {
        Layer::Full { name, keys, .. } => {
            assert_eq!(name, "l");
            assert_eq!(keys, &vec!["p".to_string(), "q".to_string()]);
        }
        other => panic!("expected Full, got {other:?}"),
    }
}

#[test]
fn parse_deflayermap_and_aliases() {
    let src = "(defsrc a b)\n(defalias x (tap-hold 200 200 a b))\n(deflayermap (nav) a left)\n";
    let model = parse(src, "win").unwrap();
    assert_eq!(model.aliases.get("x").map(|s| s.as_str()), Some("(tap-hold 200 200 a b)"));
    match &model.layers[0] {
        Layer::Sparse { name, map, .. } => {
            assert_eq!(name, "nav");
            assert_eq!(map.get("a").map(|s| s.as_str()), Some("left"));
            assert_eq!(map.get("b"), None);
        }
        other => panic!("expected Sparse, got {other:?}"),
    }
}

#[test]
fn parse_defsrc_keys_and_grid() {
    let src = "(defsrc\n  a b\n  c d)\n";
    let model = parse(src, "win").unwrap();
    assert_eq!(model.src.keys, vec!["a", "b", "c", "d"]);
    assert_eq!(model.src.layout.n_rows, 2);
    assert_eq!(model.src.layout.n_cols, 2);
}

#[test]
fn parse_unclosed_is_an_error() {
    let err = parse("(defsrc a b", "win").unwrap_err();
    assert_eq!(err.0, "unclosed (");
}

#[test]
fn parse_unexpected_close_is_an_error() {
    let err = parse("(defsrc a))", "win").unwrap_err();
    assert_eq!(err.0, "unexpected )");
}
