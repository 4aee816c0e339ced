//! Locks on ranges of keys.

use ondadb::comparator::{default_comparator, Bytewise};
use ondadb::range_lock::{KeyRange, RangeLocks};


fn locks() -> RangeLocks<Bytewise> {
    RangeLocks::new(default_comparator())
}

fn r(lo: &str, hi: &str) -> KeyRange {
    KeyRange::new(lo.as_bytes().to_vec(), hi.as_bytes().to_vec())
}

#[test]
fn disjoint_ranges_are_held_concurrently() {
    let mut l = locks();
    let _a = l.try_acquire(r("a", "c")).expect("first");
    let _b = l.try_acquire(r("d", "f")).expect("disjoint must not conflict");
}

#[test]
fn overlapping_ranges_conflict() {
    let mut l = locks();
    let _a = l.try_acquire(r("a", "m")).expect("first");
    assert!(l.try_acquire(r("f", "z")).is_none(), "overlap must conflict");
}

#[test]
fn touching_bounds_overlap() {
    let mut l = locks();
    let _a = l.try_acquire(r("a", "m")).expect("first");
    assert!(l.try_acquire(r("m", "z")).is_none(), "shared bound overlaps");
}

#[test]
fn unbounded_range_conflicts_with_everything() {
    let mut l = locks();
    let _a = l.try_acquire(KeyRange::all()).expect("first");
    assert!(l.try_acquire(r("q", "r")).is_none());
}

#[test]
fn guard_releases_on_drop() {
    let mut l = locks();
    {
        let a = l.try_acquire(r("a", "z")).expect("first");
        assert!(l.try_acquire(r("a", "z")).is_none());
        l.release(a);
    }
    assert!(l.is_empty(), "drop must release");
    l.try_acquire(r("a", "z")).expect("released range reusable");
}

#[test]
fn union_spans_every_input() {
    let ord = default_comparator();
    let spans: Vec<(&[u8], &[u8])> = vec![
        (b"d".as_ref(), b"f".as_ref()),
        (b"a".as_ref(), b"c".as_ref()),
        (b"x".as_ref(), b"z".as_ref()),
    ];
    let u = KeyRange::union(&spans, &ord).expect("non-empty");
    assert_eq!(u.min.as_deref(), Some(b"a".as_ref()));
    assert_eq!(u.max.as_deref(), Some(b"z".as_ref()));
}

#[test]
fn union_of_nothing_is_none() {
    let ord = default_comparator();
    let empty: Vec<(&[u8], &[u8])> = Vec::new();
    assert!(KeyRange::union(&empty, &ord).is_none());
}
