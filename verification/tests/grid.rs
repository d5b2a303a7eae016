use kanata_mapping_viewer_core::layout::compute_layout;
use kanata_mapping_viewer_core::sexpr::Span;

fn span_of(src: &str, key: &str, from: usize) -> Span {
    let start = from + src[from..].find(key).unwrap();
    Span { start, end: start + key.len() }
}

#[test]
fn grid_rows_from_lines_cols_from_order() {
    let src = "(defsrc a b\n  c d)";
    let spans = vec![
        span_of(src, "a", 7),
        span_of(src, "b", 7),
        span_of(src, "c", 7),
        span_of(src, "d", 7),
    ];
    let g = compute_layout(src, &spans);
    let rc: Vec<(usize, usize)> = g.cells.iter().map(|c| (c.row, c.col)).collect();
    assert_eq!(rc, vec![(0, 0), (0, 1), (1, 0), (1, 1)]);
    assert_eq!(g.n_rows, 2);
    assert_eq!(g.n_cols, 2);
}

#[test]
fn grid_empty() {
    let g = compute_layout("(defsrc)", &[]);
    assert!(g.cells.is_empty());
    assert_eq!(g.n_rows, 0);
    assert_eq!(g.n_cols, 0);
}

#[test]
fn grid_rows_start_at_first_key_line() {
    let src = "\n\n(defsrc\n   x\n y z)";
    let spans = vec![span_of(src, "x", 8), span_of(src, "y", 8), span_of(src, "z", 8)];
    let g = compute_layout(src, &spans);
    let rc: Vec<(usize, usize)> = g.cells.iter().map(|c| (c.row, c.col)).collect();
    assert_eq!(rc, vec![(0, 0), (1, 0), (1, 1)]);
    assert_eq!(g.n_rows, 2);
    assert_eq!(g.n_cols, 2);
}

#[test]
fn grid_orders_by_column_not_list_order() {
    // the second key stands left of the first one on the same line
    let src = "ab";
    let spans = vec![Span { start: 1, end: 2 }, Span { start: 0, end: 1 }];
    let g = compute_layout(src, &spans);
    let rc: Vec<(usize, usize)> = g.cells.iter().map(|c| (c.row, c.col)).collect();
    assert_eq!(rc, vec![(0, 1), (0, 0)]);
}

#[test]
fn grid_columns_count_chars_not_bytes() {
    let src = "é a\nb";
    let spans = vec![Span { start: 3, end: 4 }, Span { start: 5, end: 6 }];
    let g = compute_layout(src, &spans);
    let rc: Vec<(usize, usize)> = g.cells.iter().map(|c| (c.row, c.col)).collect();
    assert_eq!(rc, vec![(0, 0), (1, 0)]);
    assert_eq!(g.n_cols, 1);
}

#[test]
fn grid_spans_reach_the_next_key() {
    let src = "(defsrc a  b\n c)";
    let spans = vec![Span { start: 8, end: 9 }, Span { start: 11, end: 12 }, Span { start: 14, end: 15 }];
    let g = compute_layout(src, &spans);
    let rows: Vec<usize> = g.cells.iter().map(|c| c.row).collect();
    let widths: Vec<usize> = g.cells.iter().map(|c| c.span).collect();
    assert_eq!(rows, vec![0, 0, 1]);
    assert_eq!(g.n_rows, 2);
    assert_eq!(widths, vec![3, 1, 1]);
}
