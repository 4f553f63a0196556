use treeish::spans::{capture_to_span, merge_spans, sort_spans_by_position, Span};

fn sp(start: usize, end: usize, style: &str) -> Span {
    Span { start, end, style: style.to_string() }
}

#[test]
fn merge_adjacent_same_style() {
    let merged = merge_spans(vec![sp(0, 2, "a"), sp(2, 4, "a"), sp(4, 5, "b"), sp(6, 7, "b")]);
    assert_eq!(merged, vec![sp(0, 4, "a"), sp(4, 5, "b"), sp(6, 7, "b")]);
    assert!(merge_spans(vec![]).is_empty());
}

#[test]
fn sort_by_start_then_longer_first_stable() {
    let sorted = sort_spans_by_position(&vec![sp(3, 4, "x"), sp(0, 2, "a"), sp(0, 5, "b"), sp(0, 2, "c")]);
    assert_eq!(sorted, vec![sp(0, 5, "b"), sp(0, 2, "a"), sp(0, 2, "c"), sp(3, 4, "x")]);
}

#[test]
fn capture_to_span_rules() {
    let table = vec![0, 1, 1, 2, 3];
    assert_eq!(capture_to_span("string", 0, 3, &table, 3), Some(sp(0, 2, "string")));
    assert_eq!(capture_to_span("none", 0, 3, &table, 3), None);
    assert_eq!(capture_to_span("injection.content", 0, 3, &table, 3), None);
    assert_eq!(capture_to_span("x", 1, 2, &table, 3), None);
    // clamped to the text
    assert_eq!(capture_to_span("x", 3, 99, &table, 3), Some(sp(2, 3, "x")));
}

#[test]
fn merged_spans_leave_no_mergeable_neighbours() {
    let merged = merge_spans(vec![sp(0, 1, "a"), sp(1, 2, "a"), sp(2, 3, "a"), sp(3, 4, "b"), sp(4, 6, "b"), sp(6, 7, "a")]);
    assert_eq!(merged, vec![sp(0, 3, "a"), sp(3, 6, "b"), sp(6, 7, "a")]);
    for w in merged.windows(2) {
        assert!(!(w[0].end == w[1].start && w[0].style == w[1].style));
    }
}

#[test]
fn merging_twice_is_merging_once() {
    let once = merge_spans(vec![sp(0, 1, "a"), sp(1, 2, "a"), sp(2, 3, "b"), sp(5, 6, "b")]);
    assert_eq!(merge_spans(once.clone()), once);
}
