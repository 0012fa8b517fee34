use std::collections::BTreeMap;
use vmdkrs::spans::{insert_span, remove_span};

#[test]
fn test_insert_span_one() {
    let mut m: BTreeMap<u64, (u64, u64)> = BTreeMap::new();
    insert_span(0, 10, 0, &mut m);
    assert_eq!(m.into_iter().collect::<Vec<_>>(), [(0, (10, 0))]);
}

#[test]
fn test_insert_span_covered_exact_one() {
    let mut m: BTreeMap<u64, (u64, u64)> = BTreeMap::new();
    insert_span(0, 10, 0, &mut m);
    insert_span(0, 10, 1, &mut m);
    assert_eq!(m.into_iter().collect::<Vec<_>>(), [(0, (10, 0))]);
}

#[test]
fn test_insert_span_covered_subinterval_one() {
    let mut m: BTreeMap<u64, (u64, u64)> = BTreeMap::new();
    insert_span(0, 10, 0, &mut m);
    insert_span(1, 9, 1, &mut m);
    assert_eq!(m.into_iter().collect::<Vec<_>>(), [(0, (10, 0))]);
}

#[test]
fn test_insert_span_covered_subinterval_two() {
    let mut m: BTreeMap<u64, (u64, u64)> = BTreeMap::new();
    insert_span(0, 5, 0, &mut m);
    insert_span(5, 10, 0, &mut m);
    insert_span(1, 9, 1, &mut m);
    assert_eq!(m.into_iter().collect::<Vec<_>>(), [(0, (10, 0))]);
}

#[test]
fn test_insert_span_overlap_before() {
    let mut m: BTreeMap<u64, (u64, u64)> = BTreeMap::new();
    insert_span(4, 10, 0, &mut m);
    insert_span(0, 5, 1, &mut m);
    assert_eq!(m.into_iter().collect::<Vec<_>>(), [(0, (4, 1)), (4, (10, 0))]);
}

#[test]
fn test_insert_span_overlap_middle() {
    let mut m: BTreeMap<u64, (u64, u64)> = BTreeMap::new();
    insert_span(4, 6, 0, &mut m);
    insert_span(0, 10, 1, &mut m);
    assert_eq!(
        m.into_iter().collect::<Vec<_>>(),
        [(0, (4, 1)), (4, (6, 0)), (6, (10, 1))]
    );
}

#[test]
fn test_insert_span_overlap_after() {
    let mut m: BTreeMap<u64, (u64, u64)> = BTreeMap::new();
    insert_span(0, 5, 0, &mut m);
    insert_span(4, 10, 1, &mut m);
    assert_eq!(m.into_iter().collect::<Vec<_>>(), [(0, (5, 0)), (5, (10, 1))]);
}

#[test]
fn test_insert_span_merge_before() {
    let mut m: BTreeMap<u64, (u64, u64)> = BTreeMap::new();
    insert_span(5, 10, 0, &mut m);
    insert_span(0, 5, 0, &mut m);
    assert_eq!(m.into_iter().collect::<Vec<_>>(), [(0, (10, 0))]);
}

#[test]
fn test_insert_span_merge_middle() {
    let mut m: BTreeMap<u64, (u64, u64)> = BTreeMap::new();
    insert_span(4, 6, 0, &mut m);
    insert_span(0, 10, 0, &mut m);
    assert_eq!(m.into_iter().collect::<Vec<_>>(), [(0, (10, 0))]);
}

#[test]
fn test_insert_span_merge_after() {
    let mut m: BTreeMap<u64, (u64, u64)> = BTreeMap::new();
    insert_span(0, 5, 0, &mut m);
    insert_span(5, 10, 0, &mut m);
    assert_eq!(m.into_iter().collect::<Vec<_>>(), [(0, (10, 0))]);
}

#[test]
fn test_remove_span_whole() {
    let mut m: BTreeMap<u64, u64> = BTreeMap::from_iter([(0, 10)]);
    remove_span(0, 10, &mut m);
    assert!(m.is_empty());
}

#[test]
fn test_remove_span_empty() {
    let mut m: BTreeMap<u64, u64> = BTreeMap::new();
    remove_span(0, 10, &mut m);
    assert!(m.is_empty());
}

#[test]
fn test_remove_span_overlap_before() {
    let mut m: BTreeMap<u64, u64> = BTreeMap::from([(4, 10)]);
    remove_span(0, 6, &mut m);
    assert_eq!(m.into_iter().collect::<Vec<_>>(), [(6, 10)]);
}

#[test]
fn test_remove_span_overlap_middle() {
    let mut m: BTreeMap<u64, u64> = BTreeMap::from([(0, 10)]);
    remove_span(4, 6, &mut m);
    assert_eq!(m.into_iter().collect::<Vec<_>>(), [(0, 4), (6, 10)]);
}

#[test]
fn test_remove_span_overlap_after() {
    let mut m: BTreeMap<u64, u64> = BTreeMap::from([(0, 6)]);
    remove_span(4, 10, &mut m);
    assert_eq!(m.into_iter().collect::<Vec<_>>(), [(0, 4)]);
}

#[test]
fn test_remove_span_overlap_multi() {
    let mut m: BTreeMap<u64, u64> = BTreeMap::from([(0, 5), (6, 10)]);
    remove_span(4, 7, &mut m);
    assert_eq!(m.into_iter().collect::<Vec<_>>(), [(0, 4), (7, 10)]);
}

// Cutting a range uncovers exactly that range when no spans touch.
#[test]
fn remove_span_uncovers_exactly_the_range() {
    let mut m: BTreeMap<u64, u64> = BTreeMap::from([(0, 5), (7, 12), (20, 30)]);
    remove_span(3, 25, &mut m);
    assert_eq!(m.into_iter().collect::<Vec<_>>(), [(0, 3), (25, 30)]);
}

// Cutting an uncovered range changes nothing.
#[test]
fn remove_span_of_a_gap_changes_nothing() {
    let mut m: BTreeMap<u64, u64> = BTreeMap::from([(0, 5), (10, 20)]);
    remove_span(6, 9, &mut m);
    assert_eq!(m.into_iter().collect::<Vec<_>>(), [(0, 5), (10, 20)]);
}

// An empty range leaves a span whole when it falls at the span's start.
#[test]
fn remove_span_empty_range_at_start() {
    let mut m: BTreeMap<u64, u64> = BTreeMap::from([(4, 8)]);
    remove_span(4, 4, &mut m);
    assert_eq!(m.into_iter().collect::<Vec<_>>(), [(4, 8)]);
}

// A span that starts exactly where a cut span ends is passed over.
#[test]
fn remove_span_passes_over_touching_span() {
    let mut m: BTreeMap<u64, u64> = BTreeMap::from([(0, 5), (5, 10)]);
    remove_span(3, 8, &mut m);
    assert_eq!(m.into_iter().collect::<Vec<_>>(), [(0, 3), (5, 10)]);
}

// Labels already given are kept; only the gaps take the new label.
#[test]
fn insert_span_fills_only_gaps() {
    let mut m: BTreeMap<u64, (u64, u64)> = BTreeMap::new();
    insert_span(2, 4, 7, &mut m);
    insert_span(6, 8, 8, &mut m);
    insert_span(0, 10, 9, &mut m);
    assert_eq!(
        m.into_iter().collect::<Vec<_>>(),
        [
            (0, (2, 9)),
            (2, (4, 7)),
            (4, (6, 9)),
            (6, (8, 8)),
            (8, (10, 9))
        ]
    );
}

// Spans that do not meet stay apart.
#[test]
fn insert_span_disjoint_spans_stay_apart() {
    let mut m: BTreeMap<u64, (u64, u64)> = BTreeMap::new();
    insert_span(0, 2, 1, &mut m);
    insert_span(5, 9, 1, &mut m);
    assert_eq!(m.into_iter().collect::<Vec<_>>(), [(0, (2, 1)), (5, (9, 1))]);
}

#[test]
fn insert_empty_or_reversed_span_is_stored_as_given() {
    let mut m: BTreeMap<u64, (u64, u64)> = BTreeMap::new();
    insert_span(0, 10, 0, &mut m);
    insert_span(20, 20, 1, &mut m);
    insert_span(30, 25, 1, &mut m);
    // inside a span nothing changes
    insert_span(5, 5, 1, &mut m);
    assert_eq!(m.into_iter().collect::<Vec<_>>(), [(0, (10, 0)), (20, (20, 1)), (30, (25, 1))]);
}

#[test]
fn reversed_span_after_a_span_of_its_label_cuts_it() {
    let mut m: BTreeMap<u64, (u64, u64)> = BTreeMap::new();
    insert_span(0, 10, 1, &mut m);
    insert_span(10, 5, 1, &mut m);
    assert_eq!(m.into_iter().collect::<Vec<_>>(), [(0, (5, 1))]);
}
