//! Prepared transactions, and the log generations that they keep.

use ondadb::format::KIND_PUT;
use ondadb::prepared::{
    PreparedEntry, PreparedRegistry, PreparedWrite, RecoveredDecision, RecoveredPrepare, RecoveredPrepares,
};
use ondadb::unified::cf_id;
use ondadb::wal_gen::WalGenState;


fn entry(id: u8, cf_id: u64, key: &[u8], bytes: usize) -> PreparedEntry {
    PreparedEntry {
        id: [id; 16],
        cf_ids: vec![cf_id],
        buf: key.to_vec(),
        writes: vec![PreparedWrite {
            cf_id,
            key: (0, key.len()),
            value: (key.len(), 0),
            ttl: 0,
            kind: KIND_PUT,
        }],
        prepared_at: 0,
        bytes,
        prepare_gen: 0,
    }
}

#[test]
fn registry_key_uses_durable_cf_id() {
    let (a, b) = (cf_id("alpha"), cf_id("beta"));
    assert_ne!(a, b);
    let mut reg = PreparedRegistry::new(1 << 20);
    reg.register(entry(1, a, b"shared-key", 10));

    assert_eq!(reg.owner_of(a, b"shared-key"), Some([1u8; 16]));
    assert_eq!(
        reg.owner_of(b, b"shared-key"),
        None,
        "the same user key in another family is a different reservation"
    );
    assert_eq!(
        reg.owner_of(cf_id("alpha"), b"shared-key"),
        Some([1u8; 16])
    );
}

#[test]
fn the_first_preparer_keeps_a_key() {
    let mut reg = PreparedRegistry::new(1000);
    reg.register(entry(1, 7, b"k", 10));
    reg.register_recovered(entry(2, 7, b"k", 10));
    assert_eq!(reg.owner_of(7, b"k"), Some([1; 16]));
    reg.resolve(&[2; 16]).unwrap();
    assert_eq!(reg.owner_of(7, b"k"), Some([1; 16]));
    reg.resolve(&[1; 16]).unwrap();
    assert_eq!(reg.owner_of(7, b"k"), None);
}

#[test]
fn what_is_charged_is_what_is_listed() {
    let mut reg = PreparedRegistry::new(1000);
    let sum = |r: &PreparedRegistry| r.list(0).iter().map(|i| i.bytes).sum::<usize>();
    assert_eq!(reg.bytes(), 0);
    for id in 1..=4u8 {
        reg.register(entry(id, 7, &[id], 10 * id as usize));
        assert_eq!(reg.bytes(), sum(&reg));
    }
    assert_eq!(reg.bytes(), 100);
    reg.resolve(&[2; 16]).unwrap();
    assert_eq!(reg.bytes(), 80);
    assert_eq!(reg.bytes(), sum(&reg));
    reg.forget(&[2; 16]);
    reg.register_recovered(entry(2, 7, b"again", 5));
    assert_eq!(reg.bytes(), 85);
    assert_eq!(reg.bytes(), sum(&reg));
}

#[test]
fn an_id_is_free_once_both_its_generations_are_gone() {
    let mut g = WalGenState::default();
    g.pin(1);
    g.pin(2);
    g.resolved([1; 16], 1, 3);
    for gen in 1..=4 {
        g.mark_flushed(gen, format!("unified-wal-{gen}.log"));
    }
    assert_eq!(g.withheld(), 4);
    let (unlink, retired) = g.sweep();
    assert_eq!(unlink, vec!["unified-wal-1.log", "unified-wal-3.log", "unified-wal-4.log"]);
    assert_eq!(retired, vec![[1; 16]]);
    assert_eq!(g.withheld(), 1, "generation 2 is pinned");
    g.resolved([2; 16], 2, 9);
    assert!(g.sweep().1.is_empty(), "the decision is not flushed yet");
    g.mark_flushed(9, "unified-wal-9.log".into());
    assert_eq!(g.sweep().1, vec![[2; 16]]);
    let idle = g.sweep();
    assert!(idle.0.is_empty() && idle.1.is_empty());
    assert_eq!(g.withheld(), 0);
}

#[test]
fn registry_byte_cap_rejects_with_too_large() {
    let mut reg = PreparedRegistry::new(100);
    reg.register(entry(1, 7, b"k1", 80));
    assert!(reg.check_capacity(20).is_ok(), "exactly at the cap fits");
    let err = reg
        .check_capacity(21)
        .expect_err("21 more bytes is past the cap");
    assert_eq!(err.kind(), "too_large");
    assert_eq!(reg.len(), 1, "a refused prepare registers nothing");
}

#[test]
fn registry_resolve_frees_bytes() {
    let mut reg = PreparedRegistry::new(100);
    reg.register(entry(1, 7, b"k1", 80));
    assert_eq!(reg.bytes(), 80);
    assert!(reg.check_capacity(80).is_err());

    let got = reg.resolve(&[1u8; 16]).expect("registered above");
    assert_eq!(got.bytes, 80);
    assert_eq!(reg.bytes(), 0);
    assert!(reg.is_empty(), "the reserved key is released too");
    assert!(reg.check_capacity(100).is_ok());
    assert!(reg.knows(&[1u8; 16]));
    reg.forget(&[1u8; 16]);
    assert!(!reg.knows(&[1u8; 16]));
}

#[test]
fn sweep_unlinks_prepare_before_decision() {
    let mut g = WalGenState::default();
    g.pin(3);
    g.mark_flushed(3, "unified-wal-3.log".into());
    assert!(g.sweep().0.is_empty(), "an unresolved prepare pins gen 3");

    g.resolved([9u8; 16], 3, 5);
    assert!(
        g.sweep().0.is_empty(),
        "gen 3 waits for the decision's generation to flush"
    );

    g.mark_flushed(5, "unified-wal-5.log".into());
    let (unlink, retired) = g.sweep();
    assert_eq!(
        unlink,
        vec!["unified-wal-3.log", "unified-wal-5.log"],
        "the prepare is unlinked before its decision"
    );
    assert_eq!(retired, vec![[9u8; 16]]);
    assert_eq!(g.withheld(), 0);
}

#[test]
fn sweep_retires_same_generation_pair_atomically() {
    let mut g = WalGenState::default();
    g.pin(4);
    g.resolved([1u8; 16], 4, 4);
    g.mark_flushed(4, "unified-wal-4.log".into());
    let (unlink, retired) = g.sweep();
    assert_eq!(unlink, vec!["unified-wal-4.log"]);
    assert_eq!(retired, vec![[1u8; 16]]);
}

#[test]
fn sweep_waits_for_every_pin_on_a_generation() {
    let mut g = WalGenState::default();
    g.pin(2);
    g.pin(2);
    g.mark_flushed(2, "unified-wal-2.log".into());
    g.resolved([1u8; 16], 2, 2);
    assert!(g.sweep().0.is_empty(), "the second prepare still pins gen 2");
    g.resolved([2u8; 16], 2, 2);
    assert_eq!(g.sweep().0, vec!["unified-wal-2.log"]);
}

#[test]
fn recording_a_recovered_pair_does_not_release_another_pin() {
    let mut g = WalGenState::default();
    g.pin(0);
    g.record_pair([2u8; 16], 0, 0);
    g.mark_flushed(0, "unified-wal-0.log".into());
    assert!(
        g.sweep().0.is_empty(),
        "generation 0 still holds an unresolved prepare"
    );
    g.resolved([1u8; 16], 0, 0);
    assert_eq!(g.sweep().0, vec!["unified-wal-0.log"]);
}

#[test]
fn sweep_retires_unpinned_generations_at_once() {
    let mut g = WalGenState::default();
    g.mark_flushed(1, "unified-wal-1.log".into());
    g.mark_flushed(2, "unified-wal-2.log".into());
    assert_eq!(
        g.sweep().0,
        vec!["unified-wal-1.log", "unified-wal-2.log"]
    );
}

#[test]
fn generation_parses_out_of_the_path() {
    assert_eq!(
        WalGenState::gen_of_path("/tmp/db/unified-wal-17.log"),
        Some(17)
    );
    assert_eq!(WalGenState::gen_of_path("unified-wal-0.log"), Some(0));
    assert_eq!(WalGenState::gen_of_path("/tmp/db/wal-0.log"), None);
    assert_eq!(WalGenState::gen_of_path("/tmp/db/MANIFEST"), None);
}

#[test]
fn duplicate_unresolved_prepare_id_is_corruption() {
    let mut r = RecoveredPrepares::default();
    let mk = |gen| RecoveredPrepare {
        id: [7u8; 16],
        cf_ids: vec![1],
        records: Vec::new(),
        gen,
    };
    r.add_prepare(mk(1)).unwrap();
    let err = r.add_prepare(mk(2)).expect_err("an id may not be reused live");
    assert_eq!(err.kind(), "corruption");
}

#[test]
fn newest_decision_wins() {
    let mut r = RecoveredPrepares::default();
    r.add_decision(RecoveredDecision {
        id: [1u8; 16],
        commit: Some((10, 2)),
        gen: 1,
    });
    r.add_decision(RecoveredDecision {
        id: [1u8; 16],
        commit: Some((40, 2)),
        gen: 4,
    });
    assert_eq!(r.decision_for(&[1u8; 16]).unwrap().commit, Some((40, 2)));
    assert!(r.decision_for(&[2u8; 16]).is_none());
}
