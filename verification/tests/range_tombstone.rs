//! Range deletes and their fragments.

use ondadb::comparator::{default_comparator, Bytewise, Comparator};
use ondadb::range_tombstone::{
    covering_seq_in, decode_fragments, encode_fragments, Fragment, RangeMask, RangeTombstoneSet, Span,
};


fn set() -> RangeTombstoneSet<Bytewise> {
    RangeTombstoneSet::new(default_comparator())
}

fn frags(s: &RangeTombstoneSet<Bytewise>) -> Vec<Fragment> {
    s.fragments(None, None).collect()
}

fn f(start: &str, end: &str, seqs: &[u64]) -> Fragment {
    Fragment {
        start: start.as_bytes().to_vec(),
        end: end.as_bytes().to_vec(),
        seqs: seqs.to_vec(),
    }
}

#[test]
fn empty_set_reports_is_empty() {
    let mut s = set();
    assert!(s.is_empty());
    assert_eq!(s.covering_seq(b"anything", u64::MAX), None);
    assert_eq!(frags(&s), Vec::new());
    s.add(b"a", b"b", 1);
    assert!(!s.is_empty());
}

#[test]
fn covering_seq_finds_longest_span() {
    let mut s = set();
    s.add(b"a", b"z", 10);
    for i in 0..8u8 {
        let k = [b'b' + i];
        let e = [b'b' + i, b'~'];
        s.add(&k, &e, 20 + u64::from(i));
    }
    assert_eq!(s.covering_seq(b"m", u64::MAX), Some(10));
    assert_eq!(s.covering_seq(b"c", u64::MAX), Some(21));
}

#[test]
fn covering_seq_respects_read_seq() {
    let mut s = set();
    s.add(b"a", b"z", 5);
    s.add(b"a", b"z", 50);
    assert_eq!(s.covering_seq(b"m", 100), Some(50));
    assert_eq!(s.covering_seq(b"m", 49), Some(5));
    assert_eq!(s.covering_seq(b"m", 4), None);
}

#[test]
fn end_bound_is_exclusive() {
    let mut s = set();
    s.add(b"b", b"d", 7);
    assert_eq!(s.covering_seq(b"a", u64::MAX), None);
    assert_eq!(s.covering_seq(b"b", u64::MAX), Some(7));
    assert_eq!(s.covering_seq(b"c", u64::MAX), Some(7));
    assert_eq!(s.covering_seq(b"d", u64::MAX), None, "end is exclusive");
    let fr = frags(&s);
    assert_eq!(fr, vec![f("b", "d", &[7])]);
    let ord = default_comparator();
    assert_eq!(covering_seq_in(&ord, &fr, b"d", u64::MAX), None);
    assert_eq!(covering_seq_in(&ord, &fr, b"c", u64::MAX), Some(7));
}

#[test]
fn fragments_split_at_unique_boundaries() {
    let mut s = set();
    s.add(b"a", b"m", 1);
    s.add(b"f", b"z", 2);
    assert_eq!(
        frags(&s),
        vec![f("a", "f", &[1]), f("f", "m", &[2, 1]), f("m", "z", &[2])]
    );
}

#[test]
fn adjacent_fragments_with_equal_stacks_merge() {
    let mut s = set();
    s.add(b"a", b"m", 4);
    s.add(b"m", b"z", 4);
    assert_eq!(frags(&s), vec![f("a", "z", &[4])]);

    let mut s2 = set();
    s2.add(b"a", b"z", 4);
    s2.add(b"f", b"h", 9);
    assert_eq!(
        frags(&s2),
        vec![f("a", "f", &[4]), f("f", "h", &[9, 4]), f("h", "z", &[4])]
    );
}

#[test]
fn fragments_are_clipped_to_the_requested_interval() {
    let mut s = set();
    s.add(b"a", b"z", 3);
    assert_eq!(
        s.fragments(Some(b"f"), Some(b"m")).collect(),
        vec![f("f", "m", &[3])]
    );
    let mut s2 = set();
    s2.add(b"a", b"c", 3);
    assert_eq!(s2.fragments(Some(b"f"), Some(b"m")).len(), 0);
}

#[test]
fn fragment_section_round_trips() {
    let want = vec![f("a", "f", &[9, 4, 1]), f("f", "m", &[7])];
    let got = decode_fragments(&encode_fragments(&want)).unwrap();
    assert_eq!(got, want);
    assert_eq!(
        decode_fragments(&encode_fragments(&[])).unwrap(),
        Vec::new()
    );
}

#[test]
fn fragment_section_rejects_malformed_payloads() {
    let good = encode_fragments(&[f("a", "f", &[9, 4])]);
    assert!(decode_fragments(&good[..good.len() - 1]).is_err());
    let mut extra = good.clone();
    extra.push(0);
    assert!(decode_fragments(&extra).is_err());
    let bad = encode_fragments(&[Fragment {
        start: b"a".to_vec(),
        end: b"f".to_vec(),
        seqs: vec![1, 9],
    }]);
    assert!(decode_fragments(&bad).is_err());
}

#[test]
fn random_spans_match_a_brute_force_oracle() {
    let ord = default_comparator();
    let keys: Vec<Vec<u8>> = (0u8..16).map(|k| vec![b'a' + k]).collect();
    let mut rng = 0x1234_5678_9abc_def0u64;
    let mut next = || {
        rng ^= rng << 13;
        rng ^= rng >> 7;
        rng ^= rng << 17;
        rng
    };

    for _round in 0..200 {
        let mut s = set();
        let mut oracle: Vec<Span> = Vec::new();
        let n = 1 + (next() % 6) as usize;
        for i in 0..n {
            let a = (next() % 15) as usize;
            let b = a + 1 + (next() % (16 - a as u64 - 1)) as usize;
            let seq = 1 + i as u64 * 3;
            s.add(&keys[a], &keys[b], seq);
            oracle.push(Span {
                start: keys[a].clone(),
                end: keys[b].clone(),
                seq,
            });
        }
        let fr = frags(&s);
        for w in fr.windows(2) {
            assert!(
                ord.compare(&w[0].end, &w[1].start).is_le(),
                "fragments overlap: {w:?}"
            );
        }
        for read_seq in [0u64, 2, 5, 8, u64::MAX] {
            for key in &keys {
                let want = oracle
                    .iter()
                    .filter(|sp| {
                        sp.seq <= read_seq
                            && ord.compare(&sp.start, key).is_le()
                            && ord.compare(&sp.end, key).is_gt()
                    })
                    .map(|sp| sp.seq)
                    .max();
                assert_eq!(
                    s.covering_seq(key, read_seq),
                    want,
                    "set disagrees at {key:?}@{read_seq} for {oracle:?}"
                );
                assert_eq!(
                    covering_seq_in(&ord, &fr, key, read_seq),
                    want,
                    "fragments disagree at {key:?}@{read_seq} for {fr:?}"
                );
                let mut mask = RangeMask::new(&ord);
                mask.push(&ord, fr.clone());
                assert_eq!(mask.covering_seq(&ord, key, read_seq), want);
            }
            let mut mask = RangeMask::new(&ord);
            mask.push(&ord, fr.clone());
            for key in keys.iter().chain(keys.iter().rev()) {
                assert_eq!(
                    mask.covering_seq(&ord, key, read_seq),
                    covering_seq_in(&ord, &fr, key, read_seq),
                    "cursor and binary search disagree at {key:?}"
                );
            }
        }
    }
}
