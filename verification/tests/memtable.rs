//! The memtable and its iterators.

use std::time::{Duration, Instant};

use ondadb::comparator::{default_comparator, Bytewise, KeyComparator, Reverse};
use ondadb::memtable::Memtable;
use ondadb::wal::RecordRef;

fn mt() -> Memtable<Bytewise> {
    Memtable::new(default_comparator())
}

fn batch_and_writes_agree<C: KeyComparator>(mut batch: Memtable<C>, mut single: Memtable<C>) {
    let keys: Vec<Vec<u8>> = (0..300u32).map(|i| format!("key-{:03}", i * 7 % 90).into_bytes()).collect();
    let recs: Vec<RecordRef> = keys
        .iter()
        .enumerate()
        .map(|(i, k)| RecordRef {
            key: k,
            value: &k[..i % 5],
            seq: i as u64 + 1,
            ttl: if i % 11 == 0 { 50 } else { 0 },
            tombstone: i % 6 == 0,
            single_delete: i % 12 == 0,
        })
        .collect();
    for chunk in [&recs[..0], &recs[..1], &recs[1..2], &recs[2..300]] {
        batch.put_batch(chunk);
        for r in chunk {
            single.put_ref(r.key, r.value, r.seq, r.ttl, r.tombstone, r.single_delete);
        }
        assert_eq!(batch.approx_size(), single.approx_size());
        assert_eq!(batch.num_entries(), single.num_entries());
        assert_eq!(batch.max_seq(), single.max_seq());
    }
    assert_eq!(batch.num_entries(), 300);
    assert_eq!(format!("{:?}", batch.snapshot()), format!("{:?}", single.snapshot()));
    assert_eq!(batch.snapshot().len(), 300);
    for k in &keys {
        for (seq, now) in [(1, 0), (150, 0), (150, 60), (400, 0), (400, 60)] {
            assert_eq!(format!("{:?}", batch.get(k, seq, now)), format!("{:?}", single.get(k, seq, now)));
        }
    }
}

#[test]
fn a_batch_is_the_same_as_its_writes() {
    batch_and_writes_agree(mt(), mt());
    batch_and_writes_agree(Memtable::new(Reverse {}), Memtable::new(Reverse {}));
}

#[test]
fn put_get_versions() {
    let mut m = mt();
    m.put(b"k", b"v1".to_vec(), 1, 0, false, false);
    m.put(b"k", b"v2".to_vec(), 5, 0, false, false);
    let r = m.get(b"k", 10, 0);
    assert!(r.found && !r.deleted);
    assert_eq!(r.value, b"v2");
    assert_eq!(r.seq, 5);
    let r = m.get(b"k", 3, 0);
    assert_eq!(r.value, b"v1");
    assert_eq!(r.seq, 1);
    assert!(!m.get(b"k", 0, 0).found);
}

#[test]
fn tombstone_and_ttl() {
    let mut m = mt();
    m.put(b"a", b"x".to_vec(), 1, 0, false, false);
    m.put(b"a", Vec::new(), 2, 0, true, false);
    let r = m.get(b"a", 10, 0);
    assert!(r.found && r.deleted);

    m.put(b"b", b"y".to_vec(), 3, 100, false, false);
    assert!(m.get(b"b", 10, 50).found && !m.get(b"b", 10, 50).deleted);
    assert!(m.get(b"b", 10, 200).deleted);
}

#[test]
fn missing_key() {
    let mut m = mt();
    m.put(b"a", b"1".to_vec(), 1, 0, false, false);
    assert!(!m.get(b"z", 10, 0).found);
}

#[test]
fn iterator_forward_and_backward() {
    let mut m = mt();
    for (i, k) in [b"a", b"c", b"b", b"e", b"d"].iter().enumerate() {
        m.put(k.as_slice(), vec![i as u8], (i + 1) as u64, 0, false, false);
    }
    let mut it = m.iter();
    let mut fwd = Vec::new();
    it.seek_to_first();
    while it.valid() {
        fwd.push(it.user_key().to_vec());
        it.next();
    }
    assert_eq!(fwd, vec![b"a", b"b", b"c", b"d", b"e"]);

    let mut bwd = Vec::new();
    it.seek_to_last();
    while it.valid() {
        bwd.push(it.user_key().to_vec());
        it.prev();
    }
    assert_eq!(bwd, vec![b"e", b"d", b"c", b"b", b"a"]);
}

#[test]
fn iterator_seek() {
    let mut m = mt();
    for k in [b"a", b"c", b"e", b"g"] {
        m.put(k.as_slice(), b"v".to_vec(), 1, 0, false, false);
    }
    let mut it = m.iter();
    it.seek(b"d");
    assert!(it.valid());
    assert_eq!(it.user_key(), b"e");
    it.seek(b"a");
    assert_eq!(it.user_key(), b"a");
    it.seek(b"z");
    assert!(!it.valid());

    it.seek_le(b"d", u64::MAX);
    assert!(it.valid());
    assert_eq!(it.user_key(), b"c");
}

#[test]
fn iterator_mvcc_ordering() {
    let mut m = mt();
    m.put(b"k", b"old".to_vec(), 1, 0, false, false);
    m.put(b"k", b"new".to_vec(), 9, 0, false, false);
    let mut it = m.iter();
    it.seek_to_first();
    assert_eq!(it.seq(), 9);
    it.next();
    assert_eq!(it.seq(), 1);
}

fn snapshot_triples(m: &Memtable<Bytewise>) -> Vec<(Vec<u8>, u64, Vec<u8>)> {
    m.snapshot()
        .into_iter()
        .map(|e| (e.user_key, e.seq, e.value))
        .collect()
}

fn lazy_forward(m: &Memtable<Bytewise>) -> Vec<(Vec<u8>, u64, Vec<u8>)> {
    let mut it = m.iter();
    let mut out = Vec::new();
    it.seek_to_first();
    while it.valid() {
        out.push((it.user_key().to_vec(), it.seq(), it.value_ref().to_vec()));
        it.next();
    }
    out
}

fn lazy_backward(m: &Memtable<Bytewise>) -> Vec<(Vec<u8>, u64, Vec<u8>)> {
    let mut it = m.iter();
    let mut out = Vec::new();
    it.seek_to_last();
    while it.valid() {
        out.push((it.user_key().to_vec(), it.seq(), it.value_ref().to_vec()));
        it.prev();
    }
    out
}

#[test]
fn lazy_iter_matches_snapshot_forward_and_reverse() {
    let mut m = mt();
    let mut seq = 1u64;
    for round in 0..3u64 {
        for i in 0..400u64 {
            let k = format!("key-{:05}", (i * 7 + round) % 400);
            let tomb = round == 2 && i % 5 == 0;
            let v = format!("v{seq}").into_bytes();
            m.put(k.as_bytes(), v, seq, 0, tomb, false);
            seq += 1;
        }
    }
    let reference = snapshot_triples(&m);
    assert_eq!(
        lazy_forward(&m),
        reference,
        "forward lazy iteration must equal the snapshot (all versions, ordered)"
    );
    let mut back = lazy_backward(&m);
    back.reverse();
    assert_eq!(
        back, reference,
        "reverse lazy iteration must equal the reversed snapshot"
    );
}

#[test]
fn lazy_iter_seek_and_interleave() {
    let mut m = mt();
    for k in ["a", "c", "e", "g", "i"] {
        m.put(k.as_bytes(), b"v".to_vec(), 1, 0, false, false);
    }
    let mut it = m.iter();

    it.seek(b"d");
    assert_eq!(it.user_key(), b"e");
    it.seek(b"e");
    assert_eq!(it.user_key(), b"e");
    it.seek(b"j");
    assert!(!it.valid());

    it.seek_le(b"f", 0);
    assert_eq!(it.user_key(), b"e");
    it.seek_le(b"e", 0);
    assert_eq!(it.user_key(), b"e");
    it.seek_le(b"0", 0);
    assert!(!it.valid());

    it.seek_to_first();
    assert_eq!(it.user_key(), b"a");
    it.next();
    it.next();
    assert_eq!(it.user_key(), b"e");
    it.prev();
    assert_eq!(it.user_key(), b"c");
    it.prev();
    assert_eq!(it.user_key(), b"a");
    it.prev();
    assert!(!it.valid());

    it.seek_to_last();
    assert_eq!(it.user_key(), b"i");
    it.prev();
    assert_eq!(it.user_key(), b"g");
    it.next();
    assert_eq!(it.user_key(), b"i");
    it.next();
    assert!(!it.valid());
}

#[test]
fn lazy_iter_mvcc_versions_in_seq_order() {
    let mut m = mt();
    for &s in &[3u64, 9, 1, 7, 5] {
        m.put(b"k", format!("v{s}").into_bytes(), s, 0, false, false);
    }
    let mut it = m.iter();
    it.seek_to_first();
    let mut seqs = Vec::new();
    while it.valid() {
        seqs.push(it.seq());
        it.next();
    }
    assert_eq!(seqs, vec![9, 7, 5, 3, 1], "versions must be seq-descending");
}

#[test]
fn lazy_iter_construction_is_sublinear() {
    let mut m = mt();
    for i in 0..100_000u64 {
        let k = format!("k{i:08}");
        m.put(k.as_bytes(), b"value".to_vec(), i + 1, 0, false, false);
    }
    let mut snap_best = Duration::MAX;
    for _ in 0..3 {
        let t = Instant::now();
        let s = m.snapshot();
        snap_best = snap_best.min(t.elapsed());
        assert_eq!(s.len(), 100_000);
    }
    let mut lazy_best = Duration::MAX;
    for _ in 0..50 {
        let t = Instant::now();
        let mut it = m.iter();
        it.seek_to_first();
        assert!(it.valid());
        let _ = it.user_key();
        lazy_best = lazy_best.min(t.elapsed());
    }
    assert!(
        lazy_best * 50 < snap_best || lazy_best < Duration::from_micros(100),
        "lazy construct+seek {lazy_best:?} not >=50x cheaper than snapshot {snap_best:?}"
    );
}

#[test]
fn a_memtable_may_run_backwards() {
    let mut m = Memtable::new(Reverse {});
    let mut want = Vec::new();
    for i in 0..400u64 {
        let key = format!("k{:03}", (i * 37) % 400).into_bytes();
        m.put(&key, vec![1], 2 * i + 1, 0, false, false);
        m.put_ref(&key, &[2], 2 * i + 2, 0, false, false);
        want.push((key, 2 * i + 2));
    }
    want.sort_by(|a, b| b.0.cmp(&a.0));
    for (key, seq) in &want {
        assert_eq!(m.get(key, *seq, 0).value, [2]);
        assert_eq!(m.get(key, *seq - 1, 0).value, [1]);
        assert!(!m.get(key, *seq - 2, 0).found);
    }
    let mut it = m.iter();
    it.seek_to_first();
    for (key, seq) in &want {
        assert_eq!((it.user_key(), it.seq()), (key.as_slice(), *seq));
        it.next();
        assert_eq!((it.user_key(), it.seq()), (key.as_slice(), *seq - 1));
        it.next();
    }
    assert!(!it.valid());
    it.seek(b"k1995");
    assert_eq!(it.user_key(), b"k199");
    it.prev();
    assert_eq!(it.user_key(), b"k200");
    let listed: Vec<_> = m.snapshot().into_iter().map(|e| e.user_key).collect();
    assert_eq!(listed.len(), 800);
    assert!(listed.windows(2).all(|w| w[0] >= w[1]));
}
