use kanata_mapping_viewer_core::parser::extract_meta;

#[test]
fn meta_name_and_desc() {
    let src = "(defalias a b)\n\n;; name: Base\n;; desc: hello world\n(deflayer base\n a b)\n";
    let start = src.find("(deflayer base").unwrap();
    let (title, desc) = extract_meta(src, start);
    assert_eq!(title.as_deref(), Some("Base"));
    assert_eq!(desc.as_deref(), Some("hello world"));
}

#[test]
fn meta_only_name() {
    let src = ";; name: Game\n(deflayer game x y)\n";
    let start = src.find("(deflayer game").unwrap();
    let (title, desc) = extract_meta(src, start);
    assert_eq!(title.as_deref(), Some("Game"));
    assert_eq!(desc, None);
}

#[test]
fn meta_none_when_no_comment() {
    let src = "(defalias a b)\n(deflayer base a b)\n";
    let start = src.find("(deflayer base").unwrap();
    let (title, desc) = extract_meta(src, start);
    assert_eq!(title, None);
    assert_eq!(desc, None);
}

#[test]
fn meta_stops_at_blank_line() {
    let src = ";; name: Ignored\n\n;; name: Real\n(deflayer base a b)\n";
    let start = src.find("(deflayer base").unwrap();
    let (title, _) = extract_meta(src, start);
    assert_eq!(title.as_deref(), Some("Real"));
}

#[test]
fn meta_ignores_other_comments() {
    let src = ";; some note\n;; name: Capital\n;; another note\n;; desc: d\n(deflayer capital a)\n";
    let start = src.find("(deflayer capital").unwrap();
    let (title, desc) = extract_meta(src, start);
    assert_eq!(title.as_deref(), Some("Capital"));
    assert_eq!(desc.as_deref(), Some("d"));
}

#[test]
fn meta_indented_comments() {
    let src = "  ;; name: Indented\n  (deflayer base a b)\n";
    let start = src.find("(deflayer base").unwrap();
    let (title, _) = extract_meta(src, start);
    assert_eq!(title.as_deref(), Some("Indented"));
}

#[test]
fn meta_at_start_of_source_is_none() {
    let (title, desc) = extract_meta("(deflayer base a)", 0);
    assert_eq!(title, None);
    assert_eq!(desc, None);
}

#[test]
fn meta_crlf_lines() {
    let src = ";; name: Win\r\n;; desc: crlf\r\n(deflayer base a)\r\n";
    let start = src.find("(deflayer base").unwrap();
    let (title, desc) = extract_meta(src, start);
    assert_eq!(title.as_deref(), Some("Win"));
    assert_eq!(desc.as_deref(), Some("crlf"));
}
