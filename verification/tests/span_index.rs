//! Markers of recent commits, and who conflicts with them.

use ondadb::comparator::default_comparator;
use ondadb::span_index::{SpanIndex, SpanReservation};


fn idx() -> SpanIndex {
    SpanIndex::new(16)
}

fn res(i: &mut SpanIndex, n: usize) -> SpanReservation {
    i.reserve(n, 0)
        .ok()
        .expect("capacity available")
        .expect("slots granted")
}

#[test]
fn range_marker_conflicts_with_an_overlapping_point_marker() {
    let mut i = idx();
    let ord = default_comparator();
    let mut r = res(&mut i, 1);
    i.insert_point(&mut r, 1, b"m", 10);
    assert_eq!(i.range_conflict(1, &ord, b"a", b"z", 5), Some(10));
    assert_eq!(i.range_conflict(1, &ord, b"a", b"z", 10), None);
    assert_eq!(i.range_conflict(2, &ord, b"a", b"z", 5), None);
    assert_eq!(i.range_conflict(1, &ord, b"a", b"m", 5), None);
}

#[test]
fn point_conflict_sees_only_covering_range_markers() {
    let mut i = idx();
    let ord = default_comparator();
    let mut r = res(&mut i, 2);
    i.insert_range(&mut r, 1, b"a", b"m", 10);
    i.insert_point(&mut r, 1, b"q", 11);
    assert_eq!(i.point_conflict(1, &ord, b"c", 5), Some(10));
    assert_eq!(i.point_conflict(1, &ord, b"m", 5), None, "end is exclusive");
    assert_eq!(i.point_conflict(1, &ord, b"q", 5), None);
}

#[test]
fn pruning_drops_markers_at_or_below_the_oldest_snapshot() {
    let mut i = idx();
    let mut r = res(&mut i, 3);
    i.insert_point(&mut r, 1, b"a", 5);
    i.insert_point(&mut r, 1, b"b", 10);
    i.insert_point(&mut r, 1, b"c", 15);
    assert_eq!(i.len(), 3);
    i.prune(10);
    assert_eq!(i.len(), 1);
    assert_eq!(i.pruned(), 2);
    // A reservation prunes, too, and the count goes on.
    let r = i.reserve(1, 15).unwrap().unwrap();
    assert_eq!((i.len(), i.pruned()), (0, 3));
    i.release(r);
}

#[test]
fn a_dropped_reservation_returns_its_slots() {
    let mut i = SpanIndex::new(2);
    {
        let r = res(&mut i, 2);
        assert!(i.reserve(1, 0).unwrap().is_none());
        assert!(SpanIndex::after_wait(true, false, false).is_err_and(|e| e.kind() == "invalid_db"));
        assert!(!SpanIndex::after_wait(false, true, false).unwrap());
        i.release(r);
    }
    let _r = res(&mut i, 2);
}

#[test]
fn a_reservation_larger_than_the_index_is_refused_rather_than_blocking() {
    let mut i = SpanIndex::new(4);
    let e = i.reserve(5, 0).err().unwrap();
    assert_eq!(e.kind(), "too_large");
}
