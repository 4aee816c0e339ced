//! Snapshots, profiling, shared caches, objects and names.

use ondadb::db::DB;
use ondadb::encoding::{
    append_u64_be, append_uvarint, append_varint, bytes_eq, checksum, read_u64, read_u64_be, uvarint, varint,
};
use ondadb::error::{IoFailure, OndaError};
use ondadb::format::{cf_dir_name, check_caps, check_kind, check_modifiers, check_point_kind};
use ondadb::key_prefix::key_prefix8;
use ondadb::manifest::{CfManifest, Manifest, SstMeta};
use ondadb::manifest_edit::{
    append_position, begin_snapshot, edit_log_path, edit_log_tmp_path, encode_bounded_record, encode_record,
    reconciled, recover_from, snapshot_due,
};
use ondadb::edit_codec::{Op, VersionEdit};
use ondadb::format::CAP_MANIFEST_EDITS;
use ondadb::memtable::shard_index;
use ondadb::perf::{enter, PerfContext, PerfStack};
use ondadb::read_profile::{ReadOp, ReadProfiler};
use ondadb::read_resources::{Cleanup, LeaseState, ReadResourceOptions};
use ondadb::snapshot::SnapshotPins;
use ondadb::snapshot_read::{KeyBound, ReadAt};
use ondadb::storage::{is_not_found, page_of, sort_texts, trim_slashes, ObjectInfo, TierEntry, TierRegistry};
use ondadb::text::{decimal, hex};
use ondadb::unified::cf_id;

fn db(id: u64) -> DB {
    DB {
        id,
        read_only: false,
        poisoned: false,
        tiers: Vec::new(),
        roots: TierRegistry {
            default_root: "/db".into(),
            tiers: vec![TierEntry {
                name: "cold".into(),
                root: "/mnt/cold".into(),
            }],
        },
        instance_nonce: None,
        next_file_id: 1,
        visible_seq: 30,
        caps: 0,
        unified_memtable: false,
        snapshots: SnapshotPins::new(),
        profile: ReadProfiler::default(),
    }
}

#[test]
fn checksum_of_the_check_string() {
    assert_eq!(checksum(b"123456789"), 0xE306_9283);
    assert_eq!(checksum(b""), 0);
}

/// A column family whose every answer names what it was asked.
struct Echo;

impl ReadAt for Echo {
    type Iter = String;

    fn get(&self, key: &[u8], seq: u64) -> Result<Vec<u8>, OndaError> {
        if key.is_empty() {
            return Err(OndaError::NotFound);
        }
        let mut v = key.to_vec();
        v.push(seq as u8);
        Ok(v)
    }

    fn multi_get(&self, keys: &[&[u8]], seq: u64) -> Vec<Result<Vec<u8>, OndaError>> {
        keys.iter().map(|k| self.get(k, seq)).collect()
    }

    fn iter(&self, seq: u64, lower: KeyBound<'_>, upper: KeyBound<'_>) -> String {
        format!("{seq} {lower:?} {upper:?}")
    }

    fn failed(&self, error: OndaError) -> String {
        error.to_string()
    }
}

#[test]
fn reads_at_a_snapshot_go_to_its_sequence() {
    let mut d = db(1);
    let h = d.snapshot(44);
    assert_eq!(h.get(&Echo, b"k").unwrap(), b"k,");
    let mut buf = b"before ".to_vec();
    assert_eq!(h.get_into(&Echo, b"k", &mut buf).unwrap(), 2);
    assert_eq!(buf, b"before k,");
    assert_eq!(h.get_into(&Echo, b"", &mut buf).unwrap_err().kind(), "not_found");
    assert_eq!(buf, b"before k,");
    let many = h.multi_get(&Echo, &[b"a", b""]);
    assert_eq!(many[0].as_deref().unwrap(), b"a,");
    assert!(many[1].is_err());
    assert_eq!(h.new_iterator(&Echo), "44 Unbounded Unbounded");
    assert_eq!(
        h.new_iterator_bounded(&Echo, KeyBound::Included(b"a"), KeyBound::Excluded(b"b")),
        "44 Included([97]) Excluded([98])"
    );

    assert_eq!(d.get_at(&Echo, b"k", &h).unwrap(), b"k,");
    assert_eq!(d.get_at(&Echo, b"", &h).unwrap_err().kind(), "not_found");
    assert_eq!(
        d.new_iterator_at(&Echo, &h, KeyBound::Unbounded, KeyBound::Unbounded),
        "44 Unbounded Unbounded"
    );
    let other = db(2);
    assert_eq!(other.get_at(&Echo, b"k", &h).unwrap_err().kind(), "invalid_args");
    assert!(other
        .new_iterator_at(&Echo, &h, KeyBound::Unbounded, KeyBound::Unbounded)
        .starts_with("invalid_args"));
    d.snapshots.release(h);
}

#[test]
fn a_snapshot_pins_until_its_last_handle_is_gone() {
    let mut d = db(1);
    let a = d.snapshot(0);
    assert_eq!(a.seq(), 30);
    let b = d.snapshot(44);
    assert_eq!(b.seq(), 44, "at least what this thread committed");
    assert_eq!(d.snapshots.oldest(), Some(30));
    let c = d.snapshots.share(&a);
    d.snapshots.release(a);
    assert_eq!(d.snapshots.oldest(), Some(30), "a shared pin stays");
    assert_eq!(c.seq(), 30);
    c.check_owner(&d).unwrap();
    assert_eq!(c.check_owner(&db(2)).unwrap_err().kind(), "invalid_args");
    d.snapshots.release(c);
    assert_eq!(d.snapshots.oldest(), Some(44));
    d.snapshots.release(b);
    assert_eq!(d.snapshots.oldest(), None);
}

#[test]
fn profiling_counts_only_while_it_is_on() {
    let mut d = db(1);
    assert!(!d.read_profiling_enabled());
    assert!(!d.profile.begin(ReadOp::Point));
    assert_eq!(d.read_stats().point_reads, 0);
    d.enable_read_profiling(true);
    assert!(d.profile.begin(ReadOp::Point));
    assert!(d.profile.begin(ReadOp::MultiGet(5)));
    d.profile.begin_always(ReadOp::IteratorStep);
    d.profile.add(&PerfContext {
        block_misses: 3,
        ..PerfContext::default()
    });
    d.enable_read_profiling(false);
    let s = d.read_stats();
    assert_eq!((s.point_reads, s.multi_get_calls, s.multi_get_keys, s.iterator_ops), (1, 1, 5, 1));
    assert_eq!(s.perf.block_misses, 3);
    d.enable_read_profiling(true);
    assert_eq!(d.read_stats().point_reads, 0, "turning it on starts over");
}

#[test]
fn a_scope_may_hand_its_counters_up() {
    let mut stack = PerfStack::new();
    assert!(!stack.active());
    let outer = enter(&mut stack);
    let inner = enter(&mut stack);
    assert!(stack.active());
    stack.bump(&PerfContext {
        vlog_reads: 2,
        ..PerfContext::default()
    });
    assert_eq!(inner.finish_into_parent(&mut stack).vlog_reads, 2);
    assert_eq!(outer.finish(&mut stack).vlog_reads, 2);
    assert_eq!(stack.depth(), 0);
}

#[test]
fn shared_caches_are_emptied_when_nobody_uses_them() {
    let mut s = LeaseState::new();
    let a = s.lease("a").unwrap();
    assert_eq!(s.lease("a").unwrap(), a, "one namespace, one number");
    let b = s.lease("b").unwrap();
    assert_ne!(a, b);
    assert_eq!(s.usage(), (3, false));
    assert_eq!(s.release("a"), Cleanup::Nothing);
    assert_eq!(s.release("a"), Cleanup::Namespace(a));
    assert_ne!(s.lease("a").unwrap(), a, "a number is not used again");
    assert!(!s.close(), "someone still uses them");
    assert_eq!(s.lease("c").unwrap_err().kind(), "invalid_args");
    assert_ne!(s.release("a"), Cleanup::Everything);
    assert_eq!(s.release("b"), Cleanup::Everything);
    let mut idle = LeaseState::new();
    assert!(idle.close());
    let o = ReadResourceOptions {
        block_cache_bytes: 0,
        max_open_files: 0,
        max_open_readers: 1,
        max_reader_bytes: 0,
    };
    assert_eq!(o.open_files(), 1);
}

#[test]
fn objects_are_known_by_their_digest() {
    let info = ObjectInfo::of(b"abc");
    assert_eq!(info.size, 3);
    assert_eq!(
        info.sha256[..8],
        [0xba, 0x78, 0x16, 0xbf, 0x8f, 0x01, 0xcf, 0xea]
    );
    assert!(!info.store_verified && info.store_checksum.is_none());
}

/// The pages over the children `a` to `e`, two at a time.
#[test]
fn pages_follow_one_another() {
    let names = || -> Vec<String> { ["c", "a", "e", "b", "d"].iter().map(|s| s.to_string()).collect() };
    let mut seen = Vec::new();
    let mut token: Option<String> = None;
    loop {
        let page = page_of("/root", names(), token.as_deref(), 2);
        assert!(page.prefixes.len() <= 2);
        seen.extend(page.prefixes);
        match page.next_token {
            Some(t) => token = Some(t),
            None => break,
        }
    }
    let want: Vec<String> = ["a", "b", "c", "d", "e"].iter().map(|c| format!("/root/{c}")).collect();
    assert_eq!(seen, want);
    let missing = page_of("/root/nothing", Vec::new(), None, 0);
    assert!(missing.prefixes.is_empty() && missing.next_token.is_none());
    assert_eq!(trim_slashes("a/b//"), "a/b");
    assert_eq!(sort_texts(names())[0], "a");
}

#[test]
fn missing_objects_are_told_from_other_failures() {
    assert!(is_not_found(&OndaError::NotFound));
    let io = |not_found: bool| {
        OndaError::Io(IoFailure {
            not_found,
            message: "x".into(),
        })
    };
    assert!(is_not_found(&io(true)));
    assert!(!is_not_found(&io(false)));
    assert_eq!(io(false).kind(), "io");
    assert_eq!(io(false).message(), "x");
    assert_eq!(io(true).duplicate(), io(true));
}

#[test]
fn tiers_lead_to_their_roots() {
    let d = db(1);
    assert_eq!(d.roots.root_for(None), "/db");
    assert_eq!(d.roots.root_for(Some("cold")), "/mnt/cold");
    assert_eq!(d.roots.cf_dir(Some("cold"), "x"), "/mnt/cold/cf-x");
    assert!(d.roots.is_known(None) && d.roots.is_known(Some("cold")));
    assert!(!d.roots.is_known(Some("hot")));
    assert_eq!(cf_dir_name("x"), "cf-x");
}

#[test]
fn a_usable_database_is_neither_read_only_nor_poisoned() {
    let mut d = db(1);
    d.check_writable().unwrap();
    d.read_only = true;
    d.check_usable().unwrap();
    assert_eq!(d.check_writable().unwrap_err().kind(), "read_only");
    d.poisoned = true;
    assert_eq!(d.check_usable().unwrap_err().kind(), "poisoned");
}

#[test]
fn keys_are_spread_by_their_hash() {
    for key in [&b""[..], b"a", b"key-00042", &[0xff; 300]] {
        let h = xxhash_rust::xxh3::xxh3_64(key);
        assert_eq!(shard_index(key), ((h ^ (h >> 32)) & 255) as usize);
    }
    assert_eq!(cf_id(""), 0xcbf2_9ce4_8422_2325);
    assert_eq!(cf_id("a"), 0xaf63_dc4c_8601_ec8c);
    assert_eq!(key_prefix8(b"ab"), 0x6162_0000_0000_0000);
    assert_eq!(key_prefix8(b"abcdefghi"), 0x6162_6364_6566_6768);
}

#[test]
fn numbers_round_trip() {
    for v in [0u64, 1, 127, 128, 300, u64::MAX] {
        let mut b = Vec::new();
        append_uvarint(&mut b, v);
        assert_eq!(uvarint(&b), Some((v, b.len())));
        let mut b = Vec::new();
        append_u64_be(&mut b, v);
        assert_eq!(b, v.to_be_bytes());
        assert_eq!(read_u64_be(&b, 0), v);
        assert_eq!(read_u64(&v.to_le_bytes()), v);
        assert_eq!(decimal(v), v.to_string());
        assert_eq!(hex(v, 16), format!("{v:016x}"));
    }
    for v in [0i64, -1, 1, i64::MIN, i64::MAX] {
        let mut b = Vec::new();
        append_varint(&mut b, v);
        assert_eq!(varint(&b), Some((v, b.len())));
    }
    assert_eq!(uvarint(&[0x80]), None);
    assert_eq!(uvarint(&[0xff; 11]), None);
    assert!(bytes_eq(b"ab", b"ab") && !bytes_eq(b"ab", b"ac"));
}

#[test]
fn unknown_words_fail_closed() {
    check_caps(0x3f).unwrap();
    assert_eq!(check_caps(0x40).unwrap_err().kind(), "unsupported_format");
    check_kind(1).unwrap();
    assert_eq!(check_kind(0).unwrap_err().kind(), "corruption");
    assert_eq!(check_kind(40).unwrap_err().kind(), "unsupported_format");
    assert_eq!(check_kind(64).unwrap_err().kind(), "corruption");
    check_point_kind(2).unwrap();
    assert!(check_point_kind(5).is_err());
    check_modifiers(6).unwrap();
    assert!(check_modifiers(8).is_err());
}

fn catalog() -> Manifest {
    Manifest {
        caps: CAP_MANIFEST_EDITS,
        generation: 1,
        cfs: vec![CfManifest {
            name: "cf".into(),
            config: Vec::new(),
            sstables: vec![SstMeta {
                id: 40,
                max_seq: 70,
                ..SstMeta::default()
            }],
            unified_id: None,
        }],
        ..Manifest::default()
    }
}

#[test]
fn a_log_replays_what_its_snapshot_lacks() {
    let mut m = catalog();
    let header = begin_snapshot(&mut m, 5);
    let mut log = header.encode();
    let edit = |n: u64| VersionEdit::new(vec![Op::SetGlobalSeq(n)]);
    log.extend_from_slice(&encode_record(6, &edit(100)));
    log.extend_from_slice(&encode_record(7, &edit(200)));
    let (h, end, count) = append_position(&log).unwrap();
    assert_eq!((h, end, count), (header, log.len(), 2));
    let got = recover_from(m.clone(), Some(&log)).unwrap();
    assert_eq!(got.global_seq, 200);
    assert_eq!((got.applied_through, got.next_edit_id), (7, 8));
    assert_eq!(got.next_file_id, 41, "ids of tables are not handed out again");
    let got = recover_from(m.clone(), Some(&log[..log.len() - 1])).unwrap();
    assert_eq!(got.global_seq, 100, "a torn tail ends the replay");
    m.caps = 0;
    assert_eq!(recover_from(m.clone(), Some(&log)).unwrap_err().kind(), "corruption");
    assert_eq!(recover_from(m, None).unwrap().global_seq, 70);
    assert_eq!(reconciled(catalog()).next_file_id, 41);
    assert_eq!(edit_log_path("/db"), "/db/MANIFEST-EDITS");
    assert_eq!(edit_log_tmp_path("/db"), "/db/MANIFEST-EDITS.tmp");
}

#[test]
fn snapshots_are_due_by_size_or_count() {
    assert!(!snapshot_due(0, 0, 0));
    assert!(!snapshot_due(0x40_0000, 4095, 0));
    assert!(snapshot_due(0, 4096, 0));
    assert!(snapshot_due(0x40_0001, 1, 0));
    assert!(!snapshot_due(0x40_0001, 1, 0x50_0000));
    assert!(snapshot_due(1, 4097, 0));
    assert!(encode_bounded_record(1, &VersionEdit::new(vec![Op::SetNonce(1)])).is_ok());
    let big = Op::CreateCf {
        name: "x".into(),
        config: vec![0; 0x400_0000],
    };
    assert_eq!(
        encode_bounded_record(1, &VersionEdit::new(vec![big])).unwrap_err().kind(),
        "invalid_args"
    );
}
