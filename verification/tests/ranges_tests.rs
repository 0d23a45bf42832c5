use parblock::errors::XcpError;
use parblock::ranges::{merge_extents, ByteRange, Extent};

fn ext(offset: u64, length: u64) -> Extent {
    Extent { offset, length }
}

fn range(start: u64, end: u64) -> ByteRange {
    ByteRange { start, end }
}

fn as_extents(ranges: &[ByteRange]) -> Vec<Extent> {
    ranges.iter().map(|r| ext(r.start, r.end - r.start)).collect()
}

#[test]
fn merge_of_nothing_is_empty() {
    assert_eq!(merge_extents(vec![]), Ok(vec![]));
}

#[test]
fn merge_keeps_a_single_extent() {
    assert_eq!(merge_extents(vec![ext(7, 3)]), Ok(vec![range(7, 10)]));
}

#[test]
fn merge_keeps_separate_extents_apart() {
    assert_eq!(
        merge_extents(vec![ext(0, 1), ext(10, 10)]),
        Ok(vec![range(0, 1), range(10, 20)])
    );
}

#[test]
fn merge_leaves_a_one_byte_hole_open() {
    assert_eq!(
        merge_extents(vec![ext(0, 10), ext(11, 9)]),
        Ok(vec![range(0, 10), range(11, 20)])
    );
}

#[test]
fn merge_joins_touching_extents() {
    assert_eq!(
        merge_extents(vec![ext(0, 10), ext(10, 10), ext(20, 5)]),
        Ok(vec![range(0, 25)])
    );
}

#[test]
fn merge_joins_overlapping_extents() {
    assert_eq!(
        merge_extents(vec![ext(0, 10), ext(5, 10), ext(30, 5), ext(32, 1)]),
        Ok(vec![range(0, 15), range(30, 35)])
    );
}

#[test]
fn merge_sorts_by_offset() {
    assert_eq!(
        merge_extents(vec![ext(40, 10), ext(0, 5), ext(21, 9), ext(11, 9)]),
        Ok(vec![range(0, 5), range(11, 20), range(21, 30), range(40, 50)])
    );
}

#[test]
fn merge_bridges_two_ranges_with_a_late_extent() {
    assert_eq!(
        merge_extents(vec![ext(0, 10), ext(20, 10), ext(40, 10), ext(10, 10)]),
        Ok(vec![range(0, 30), range(40, 50)])
    );
}

#[test]
fn merge_swallows_many_ranges_at_once() {
    assert_eq!(
        merge_extents(vec![ext(10, 2), ext(20, 2), ext(30, 2), ext(50, 1), ext(5, 40)]),
        Ok(vec![range(5, 45), range(50, 51)])
    );
}

#[test]
fn merge_drops_empty_extents() {
    assert_eq!(
        merge_extents(vec![ext(5, 0), ext(0, 4), ext(100, 0)]),
        Ok(vec![range(0, 4)])
    );
}

#[test]
fn merge_reaches_the_largest_offset() {
    assert_eq!(
        merge_extents(vec![ext(u64::MAX - 1, 1), ext(0, 1)]),
        Ok(vec![range(0, 1), range(u64::MAX - 1, u64::MAX)])
    );
}

#[test]
fn merge_refuses_an_extent_past_the_largest_offset() {
    let r = merge_extents(vec![ext(0, 4), ext(u64::MAX, 1)]);
    assert!(matches!(r, Err(XcpError::InvalidSource(_))));
    let r = merge_extents(vec![ext(2, u64::MAX)]);
    assert!(matches!(r, Err(XcpError::InvalidSource(_))));
}

#[test]
fn merge_is_idempotent() {
    let inputs = vec![
        vec![],
        vec![ext(3, 4)],
        vec![ext(40, 10), ext(0, 5), ext(21, 9), ext(11, 10), ext(4, 1)],
        vec![ext(0, 10), ext(5, 10), ext(30, 5), ext(32, 1), ext(35, 0)],
    ];
    for input in inputs {
        let once = merge_extents(input).unwrap();
        let twice = merge_extents(as_extents(&once)).unwrap();
        assert_eq!(twice, once);
    }
}

#[test]
fn merge_is_sorted_disjoint_and_covers_the_union() {
    let input = vec![ext(17, 3), ext(2, 2), ext(9, 4), ext(4, 1), ext(12, 1), ext(30, 0)];
    let merged = merge_extents(input.clone()).unwrap();
    for r in &merged {
        assert!(r.start < r.end);
    }
    for pair in merged.windows(2) {
        assert!(pair[0].end < pair[1].start);
    }
    for x in 0u64..40 {
        let in_input = input.iter().any(|e| e.offset <= x && x < e.offset + e.length);
        let in_merged = merged.iter().any(|r| r.start <= x && x < r.end);
        assert_eq!(in_input, in_merged);
    }
    assert_eq!(merged, vec![range(2, 5), range(9, 13), range(17, 20)]);
}

#[test]
fn merge_does_not_depend_on_input_order() {
    let forward = vec![ext(0, 5), ext(5, 5), ext(20, 1), ext(30, 2)];
    let mut backward = forward.clone();
    backward.reverse();
    assert_eq!(merge_extents(forward), merge_extents(backward));
}

#[test]
fn byte_range_len_is_end_minus_start() {
    assert_eq!(range(3, 10).len(), 7);
    assert_eq!(range(5, 5).len(), 0);
    assert_eq!(range(0, u64::MAX).len(), u64::MAX);
}

#[test]
fn an_extent_spans_from_start_to_end() {
    assert_eq!(Extent::spanning(4096, 8192), ext(4096, 4096));
    assert_eq!(Extent::spanning(0, u64::MAX), ext(0, u64::MAX));
    assert_eq!(Extent::spanning(7, 7), ext(7, 0));
    assert_eq!(Extent::spanning(9, 3), ext(9, 0));
}
