use syncless::span::{add_record, debug_check_spans, lower_bound, split_span, Span};

fn span(len: u64, file_data_offset: u64, validated: bool) -> Span {
    Span { len, file_data_offset, validated }
}

#[test]
fn add_to_empty_map() {
    let mut spans = Vec::new();
    add_record(&mut spans, 5, 3, 23, false);
    assert_eq!(spans, vec![(5, span(3, 23, false))]);
    assert!(debug_check_spans(&spans));
}

#[test]
fn split_cuts_the_span_across_the_offset() {
    let mut spans = vec![(0, span(10, 23, true))];
    split_span(&mut spans, 4);
    assert_eq!(spans, vec![(0, span(4, 23, true)), (4, span(6, 27, true))]);
    assert!(debug_check_spans(&spans));
}

#[test]
fn split_at_a_boundary_changes_nothing() {
    let before = vec![(0, span(4, 23, true)), (4, span(6, 50, false)), (20, span(1, 80, true))];
    for at in [0, 4, 10, 15, 20, 21, 100] {
        let mut spans = before.clone();
        split_span(&mut spans, at);
        assert_eq!(spans, before);
    }
}

#[test]
fn split_in_the_second_of_three() {
    let mut spans = vec![(0, span(4, 23, true)), (4, span(6, 50, true)), (20, span(1, 80, true))];
    split_span(&mut spans, 9);
    assert_eq!(
        spans,
        vec![
            (0, span(4, 23, true)),
            (4, span(5, 50, true)),
            (9, span(1, 55, true)),
            (20, span(1, 80, true))
        ]
    );
}

#[test]
fn add_inside_a_span_leaves_both_ends() {
    let mut spans = vec![(0, span(10, 23, true))];
    add_record(&mut spans, 3, 2, 100, false);
    assert_eq!(
        spans,
        vec![(0, span(3, 23, true)), (3, span(2, 100, false)), (5, span(5, 28, true))]
    );
    assert!(debug_check_spans(&spans));
}

#[test]
fn add_over_several_spans_deletes_the_covered_ones() {
    let mut spans = vec![(0, span(2, 23, true)), (4, span(2, 44, true)), (8, span(2, 65, true))];
    add_record(&mut spans, 1, 8, 86, false);
    assert_eq!(
        spans,
        vec![(0, span(1, 23, true)), (1, span(8, 86, false)), (9, span(1, 66, true))]
    );
    assert!(debug_check_spans(&spans));
}

#[test]
fn add_exactly_over_a_span_replaces_it() {
    let mut spans = vec![(0, span(2, 23, false)), (2, span(3, 44, false)), (5, span(2, 66, false))];
    add_record(&mut spans, 2, 3, 90, true);
    assert_eq!(
        spans,
        vec![(0, span(2, 23, false)), (2, span(3, 90, true)), (5, span(2, 66, false))]
    );
}

#[test]
fn add_behind_and_before() {
    let mut spans = vec![(10, span(2, 23, true))];
    add_record(&mut spans, 20, 1, 40, true);
    add_record(&mut spans, 0, 10, 60, true);
    assert_eq!(
        spans,
        vec![(0, span(10, 60, true)), (10, span(2, 23, true)), (20, span(1, 40, true))]
    );
}

#[test]
fn add_at_the_top_of_the_offsets() {
    let mut spans = vec![(u64::MAX - 4, span(4, 23, true))];
    add_record(&mut spans, u64::MAX - 2, 2, 50, false);
    assert_eq!(
        spans,
        vec![(u64::MAX - 4, span(2, 23, true)), (u64::MAX - 2, span(2, 50, false))]
    );
    assert!(debug_check_spans(&spans));
}

#[test]
fn check_accepts_a_well_formed_map() {
    assert!(debug_check_spans(&Vec::new()));
    assert!(debug_check_spans(&vec![(0, span(1, 23, true))]));
    assert!(debug_check_spans(&vec![(0, span(4, 23, true)), (4, span(6, 50, false))]));
    assert!(debug_check_spans(&vec![(0, span(4, 23, true)), (9, span(6, 50, false))]));
}

#[test]
fn check_refuses_an_empty_span() {
    assert!(!debug_check_spans(&vec![(0, span(0, 23, true))]));
    assert!(!debug_check_spans(&vec![(0, span(4, 23, true)), (4, span(0, 50, false))]));
}

#[test]
fn check_refuses_overlap_and_disorder() {
    assert!(!debug_check_spans(&vec![(0, span(5, 23, true)), (4, span(6, 50, false))]));
    assert!(!debug_check_spans(&vec![(4, span(1, 23, true)), (0, span(1, 50, false))]));
    assert!(!debug_check_spans(&vec![(4, span(1, 23, true)), (4, span(1, 50, false))]));
}

#[test]
fn check_refuses_a_span_beyond_the_offsets() {
    assert!(!debug_check_spans(&vec![(u64::MAX, span(1, 23, true))]));
    assert!(!debug_check_spans(&vec![(0, span(2, u64::MAX - 1, true))]));
    assert!(debug_check_spans(&vec![(u64::MAX - 1, span(1, 23, true))]));
}

#[test]
fn lower_bound_counts_the_keys_below() {
    let spans = vec![(2, span(1, 23, true)), (5, span(1, 43, true)), (9, span(1, 63, true))];
    let expected = [0, 0, 0, 1, 1, 1, 2, 2, 2, 2, 3, 3];
    for (x, want) in expected.iter().enumerate() {
        assert_eq!(lower_bound(&spans, x as u64), *want);
    }
    assert_eq!(lower_bound(&Vec::new(), 7), 0);
}
