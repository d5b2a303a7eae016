use kanata_mapping_viewer_core::preprocess::{
    Piece, PreprocessKind, Preprocessor, Step, scan_includes, scan_overruns, strip_quotes,
};

fn pieces(content: &str) -> (Vec<String>, bool) {
    let s = scan_includes(content);
    let v = s
        .pieces
        .iter()
        .map(|p| match p {
            Piece::Text(t) => format!("T:{t}"),
            Piece::Include(p) => format!("I:{p}"),
        })
        .collect();
    (v, s.unclosed)
}

#[test]
fn scan_splits_text_and_includes() {
    let (v, unclosed) = pieces("(defsrc a)\n(include \"other.kbd\")\n(deflayer b c)");
    assert_eq!(v, vec!["T:(defsrc a)\n", "I:other.kbd", "T:\n(deflayer b c)"]);
    assert!(!unclosed);
}

#[test]
fn scan_include_needs_a_boundary() {
    let (v, _) = pieces("(includes x) (include\tb.kbd)");
    assert_eq!(v, vec!["T:(includes x) ", "I:b.kbd"]);
}

#[test]
fn scan_comment_hides_include() {
    let (v, _) = pieces(";; (include a.kbd)\nz");
    assert_eq!(v, vec!["T:;; (include a.kbd)\nz"]);
}

#[test]
fn scan_include_with_nested_and_string_parens() {
    let (v, _) = pieces("(include \"a (b).kbd\" ;; )\n)x");
    assert_eq!(v, vec!["I:\"a (b).kbd\" ;; )", "T:x"]);
}

#[test]
fn scan_unclosed_include() {
    let (v, unclosed) = pieces("ab (include x");
    assert_eq!(v, vec!["T:ab "]);
    assert!(unclosed);
}

#[test]
fn scan_overrun_detected() {
    assert!(scan_overruns("(include r#\"x\""));
    assert!(!scan_overruns("(include r#\"x\"#)"));
}

#[test]
fn strip_quotes_cases() {
    assert_eq!(strip_quotes("  \"a.kbd\" "), "a.kbd");
    assert_eq!(strip_quotes("a.kbd"), "a.kbd");
    assert_eq!(strip_quotes("\""), "\"");
}

#[test]
fn preprocessor_splices_and_detects_cycles() {
    let mut p = Preprocessor::new();
    let root = "a (include b.kbd) c".to_string();
    assert!(p.open("main.kbd".into(), "/m".into(), Ok(root)).is_none());
    assert!(matches!(p.step(), Step::Continue));
    match p.step() {
        Step::Include { from, target } => {
            assert_eq!(from, "main.kbd");
            assert_eq!(target, "b.kbd");
        }
        _ => panic!("expected an include"),
    }
    // the included file includes the root again
    let inc = "B(include main.kbd)".to_string();
    assert!(p.open("b.kbd".into(), "/b".into(), Ok(inc)).is_none());
    assert!(matches!(p.step(), Step::Continue));
    assert!(matches!(p.step(), Step::Include { .. }));
    let e = p.open("main.kbd".into(), "/m".into(), Ok(String::new())).unwrap();
    assert_eq!(e.path, "/m");
    assert!(matches!(e.kind, PreprocessKind::Cyclic));
}

#[test]
fn preprocessor_runs_to_the_end() {
    let mut p = Preprocessor::new();
    assert!(p.open("m".into(), "/m".into(), Ok("x (include b) y".to_string())).is_none());
    let mut guard = 0;
    loop {
        guard += 1;
        assert!(guard < 100);
        match p.step() {
            Step::Continue => {}
            Step::Include { target, .. } => {
                assert_eq!(target, "b");
                assert!(p.open("b".into(), "/b".into(), Ok("[B]".to_string())).is_none());
            }
            Step::Fail(_) => panic!("unexpected failure"),
            Step::Done => break,
        }
    }
    assert_eq!(p.into_output(), "x [B] y");
}

#[test]
fn preprocessor_read_failure_and_unclosed() {
    let mut p = Preprocessor::new();
    let e = p.open("gone".into(), "gone".into(), Err("not found".to_string())).unwrap();
    assert_eq!(e.path, "gone");
    assert!(matches!(e.kind, PreprocessKind::Io(ref m) if m == "not found"));
    assert!(p.open("m".into(), "/m".into(), Ok("(include".to_string())).is_none());
    match p.step() {
        Step::Fail(e) => {
            assert_eq!(e.path, "m");
            assert!(matches!(e.kind, PreprocessKind::Io(ref m) if m == "unclosed include form"));
        }
        _ => panic!("expected a failure"),
    }
}

#[test]
fn scan_file_without_parens_is_one_text() {
    let (v, unclosed) = pieces("a b ;; c\nd é");
    assert_eq!(v, vec!["T:a b ;; c\nd é"]);
    assert!(!unclosed);
    let (v, _) = pieces("");
    assert!(v.is_empty());
}

#[test]
fn scan_commented_includes_copied_unchanged() {
    let src = "(defsrc a) ;; (include x.kbd)\n  ;; (include y.kbd)\n(deflayer b c)";
    let (v, unclosed) = pieces(src);
    assert_eq!(v, vec![format!("T:{src}")]);
    assert!(!unclosed);
}
