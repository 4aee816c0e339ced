//! Catalog edits: their bytes, their preconditions and their log.

use ondadb::edit_codec::{Op, TableUpdate, VersionEdit};
use ondadb::edit_read::decode_payload;
use ondadb::edit_write::{append_bytes, encode_op, encode_payload};
use ondadb::encoding::{append_u32, append_u64, append_uvarint, checksum, put_u32_at, read_u32};
use ondadb::error::OndaError;
use ondadb::manifest::{Manifest, SstMeta, WalLayout};
use ondadb::manifest_edit::{
    apply_edit, decode_records, encode_record, CatalogReplayer, EditLogHeader, EDIT_RECORD_HEADER_BYTES,
    LEGACY_EDIT_LOG_MAGIC,
};

const UPDATE_TABLE: u64 = 3;
const DROP_CF: u64 = 5;
const SET_WAL_LAYOUT: u64 = 9;

/// A small xorshift generator for arbitrary bytes.
struct FuzzRng(u64);

impl FuzzRng {
    fn new(seed: u64) -> FuzzRng {
        FuzzRng(seed)
    }

    fn next(&mut self) -> u64 {
        self.0 ^= self.0 << 13;
        self.0 ^= self.0 >> 7;
        self.0 ^= self.0 << 17;
        self.0
    }

    fn below(&mut self, n: usize) -> usize {
        (self.next() % (n as u64)) as usize
    }
}

/// A few random flips, cuts and insertions of a seed.
fn fuzz_mutate(rng: &mut FuzzRng, seed: &[u8]) -> Vec<u8> {
    let mut v = seed.to_vec();
    for _ in 0..1 + rng.below(4) {
        match rng.below(4) {
            0 if !v.is_empty() => {
                let i = rng.below(v.len());
                v[i] ^= 1 << rng.below(8);
            }
            1 if !v.is_empty() => {
                let n = rng.below(v.len());
                v.truncate(n);
            }
            2 => {
                let i = rng.below(v.len() + 1);
                v.insert(i, rng.next() as u8);
            }
            _ => {
                let n = rng.below(9);
                for _ in 0..n {
                    v.push(rng.next() as u8);
                }
            }
        }
    }
    v
}


fn meta_all_set() -> SstMeta {
    SstMeta {
        id: 9,
        level: 4,
        num_entries: 300,
        num_tombstones: 7,
        max_seq: 4_000,
        klog_size: 1 << 20,
        vlog_size: 1 << 18,
        min_key: b"k-min".to_vec(),
        max_key: b"k-max".to_vec(),
        partition: Some("img".into()),
        tier: Some("cold".into()),
        max_entry_time: Some(-1_700_000_000_000_000_001),
        object: Some("cf-x/deadbeef-9".into()),
        last_compaction_time: Some(-1_700_000_000_000_000_002),
        range_count: 3,
        range_min_seq: 11,
        range_max_seq: 42,
        range_min_key: Some(b"r-min".to_vec()),
        range_max_key: Some(b"r-max".to_vec()),
    }
}

fn meta_all_none() -> SstMeta {
    SstMeta {
        id: 1,
        level: 0,
        num_entries: 1,
        num_tombstones: 0,
        max_seq: 1,
        klog_size: 10,
        vlog_size: 0,
        min_key: Vec::new(),
        max_key: Vec::new(),
        partition: None,
        tier: None,
        max_entry_time: None,
        object: None,
        last_compaction_time: None,
        range_count: 0,
        range_min_seq: 0,
        range_max_seq: 0,
        range_min_key: None,
        range_max_key: None,
    }
}

fn all_ops() -> Vec<Op> {
    vec![
        Op::AddTable {
            cf: "a".into(),
            meta: meta_all_set(),
        },
        Op::RemoveTable {
            cf: "a".into(),
            id: 3,
            expected_level: 2,
        },
        Op::UpdateTable {
            cf: "a".into(),
            id: 4,
            update: TableUpdate {
                level: Some(6),
                tier: Some(Some("cold".into())),
                object: Some(None),
                partition: Some(Some("img".into())),
                max_entry_time: Some(Some(42)),
                last_compaction_time: Some(Some(43)),
            },
        },
        Op::CreateCf {
            name: "b".into(),
            config: vec![1, 2, 3],
        },
        Op::DropCf { name: "c".into() },
        Op::SetCfConfig {
            name: "a".into(),
            config: vec![4, 5],
        },
        Op::SetNextFileId(1234),
        Op::SetGlobalSeq(5678),
        Op::SetWalLayout(WalLayout::Unified),
        Op::SetNonce(0xFEED_FACE_DEAD_BEEF),
        Op::SetCapability(ondadb::format::CAP_MANIFEST_EDITS),
        Op::RemoveTables {
            cf: "a".into(),
            ids: vec![1, 2, 3],
        },
    ]
}

fn round_trip(ops: Vec<Op>) -> VersionEdit {
    let edit = VersionEdit::new(ops);
    let payload = encode_payload(77, &edit);
    let (id, back) = decode_payload(&payload).unwrap();
    assert_eq!(id, 77);
    back
}

#[test]
fn every_op_round_trips() {
    let ops = all_ops();
    assert_eq!(round_trip(ops.clone()).ops, ops);
}

#[test]
fn sst_meta_round_trips_with_all_options_set() {
    let ops = vec![Op::AddTable {
        cf: "cf".into(),
        meta: meta_all_set(),
    }];
    assert_eq!(round_trip(ops.clone()).ops, ops);
}

#[test]
fn sst_meta_round_trips_with_all_options_none() {
    let ops = vec![Op::AddTable {
        cf: "cf".into(),
        meta: meta_all_none(),
    }];
    assert_eq!(round_trip(ops.clone()).ops, ops);
}

/// The mask's values are positional, so a decoder that reads them in any
/// other order silently swaps two `Option<String>` fields.
#[test]
fn update_mask_values_decode_in_ascending_bit_order() {
    let update = TableUpdate {
        level: Some(2),
        tier: Some(Some("T".into())),
        object: Some(Some("O".into())),
        partition: Some(Some("P".into())),
        max_entry_time: Some(Some(9)),
        last_compaction_time: Some(Some(11)),
    };
    assert_eq!(update.mask(), 0x3F);
    let ops = vec![Op::UpdateTable {
        cf: "cf".into(),
        id: 1,
        update,
    }];
    let back = round_trip(ops.clone());
    assert_eq!(back.ops, ops);
    // Every single-bit subset also round-trips in isolation.
    for update in [
        TableUpdate {
            level: Some(3),
            ..Default::default()
        },
        TableUpdate {
            tier: Some(None),
            ..Default::default()
        },
        TableUpdate {
            object: Some(Some("o".into())),
            ..Default::default()
        },
        TableUpdate {
            partition: Some(None),
            ..Default::default()
        },
        TableUpdate {
            max_entry_time: Some(Some(-5)),
            ..Default::default()
        },
    ] {
        let ops = vec![Op::UpdateTable {
            cf: "cf".into(),
            id: 1,
            update,
        }];
        assert_eq!(round_trip(ops.clone()).ops, ops);
    }
}

#[test]
fn unknown_op_code_is_corruption_naming_the_index() {
    for code in [0u64, 13, 63, 64, 1000] {
        let mut payload = Vec::new();
        append_u64(&mut payload, 5);
        append_uvarint(&mut payload, 2);
        encode_op(&mut payload, &Op::SetGlobalSeq(1));
        append_uvarint(&mut payload, code);
        let err = decode_payload(&payload).expect_err("an unassigned op code must fail closed");
        assert_eq!(err.kind(), "corruption");
        assert!(
            err.to_string().contains("op index 1"),
            "message must name the op index: {err:?}"
        );
    }
}

#[test]
fn zero_update_mask_is_corruption() {
    let mut payload = Vec::new();
    append_u64(&mut payload, 1);
    append_uvarint(&mut payload, 1);
    append_uvarint(&mut payload, UPDATE_TABLE);
    append_bytes(&mut payload, b"cf");
    append_uvarint(&mut payload, 7);
    append_uvarint(&mut payload, 0);
    let err = decode_payload(&payload).expect_err("an empty update mask must fail closed");
    assert_eq!(err.kind(), "corruption");
    // A bit above the top assigned one is equally rejected.
    let mut payload = Vec::new();
    append_u64(&mut payload, 1);
    append_uvarint(&mut payload, 1);
    append_uvarint(&mut payload, UPDATE_TABLE);
    append_bytes(&mut payload, b"cf");
    append_uvarint(&mut payload, 7);
    append_uvarint(&mut payload, 0x20);
    assert_eq!(
        decode_payload(&payload).unwrap_err().kind(),
        "corruption",
        "a mask bit above 0x10 must fail closed"
    );
}

#[test]
fn invalid_utf8_cf_name_is_corruption() {
    let mut payload = Vec::new();
    append_u64(&mut payload, 1);
    append_uvarint(&mut payload, 1);
    append_uvarint(&mut payload, DROP_CF);
    append_bytes(&mut payload, &[0xFF, 0xFE]);
    let err = decode_payload(&payload).expect_err("a non-UTF-8 name must fail closed");
    assert_eq!(err.kind(), "corruption");
    assert!(err.to_string().contains("UTF-8"), "{err:?}");
}

#[test]
fn set_wal_layout_rejects_bytes_other_than_zero_and_one() {
    for byte in [2u8, 0xFF] {
        let mut payload = Vec::new();
        append_u64(&mut payload, 1);
        append_uvarint(&mut payload, 1);
        append_uvarint(&mut payload, SET_WAL_LAYOUT);
        payload.push(byte);
        let err = decode_payload(&payload).expect_err("only 0 and 1 are assigned");
        assert_eq!(err.kind(), "corruption");
    }
}

#[test]
fn trailing_bytes_after_the_last_op_are_corruption() {
    let mut payload = encode_payload(3, &VersionEdit::new(vec![Op::SetGlobalSeq(1)]));
    payload.push(0);
    assert_eq!(decode_payload(&payload).unwrap_err().kind(), "corruption");
}

/// The op decoder is reachable from any byte string a corrupt or hostile
/// file can hold, so it must be total: a `Result`, never a panic.
#[test]
fn op_decoder_never_panics_on_arbitrary_bytes() {
    let mut seeds: Vec<Vec<u8>> = vec![encode_payload(1, &VersionEdit::new(all_ops()))];
    for op in all_ops() {
        seeds.push(encode_payload(2, &VersionEdit::new(vec![op])));
    }
    seeds.push(Vec::new());
    let mut rng = FuzzRng::new(0x9E37_79B9_7F4A_7C15);
    for seed in &seeds {
        for _ in 0..4000 {
            let case = fuzz_mutate(&mut rng, seed);
            let _ = decode_payload(&case);
            // Also through the framing, where a lying length is the hazard.
            let mut framed = Vec::new();
            append_u32(&mut framed, case.len() as u32);
            append_u32(&mut framed, checksum(&case));
            framed.extend_from_slice(&case);
            let mut file = EditLogHeader {
                base_applied_through: 0,
                snapshot_generation: 1,
            }
            .encode();
            file.extend_from_slice(&framed);
            let _ = decode_records(&file);
        }
    }
}

// -- Apply / preconditions ------------------------------------------------

fn seeded() -> Manifest {
    let mut m = Manifest::default();
    apply_edit(
        &mut m,
        &VersionEdit::new(vec![
            Op::CreateCf {
                name: "cf".into(),
                config: vec![1],
            },
            Op::AddTable {
                cf: "cf".into(),
                meta: SstMeta {
                    id: 1,
                    level: 2,
                    ..SstMeta::default()
                },
            },
        ]),
    )
    .unwrap();
    m
}

fn reject(m: &mut Manifest, ops: Vec<Op>) -> OndaError {
    let before = format!("{m:?}");
    let err = apply_edit(m, &VersionEdit::new(ops)).expect_err("precondition must reject");
    assert_eq!(err.kind(), "corruption");
    assert_eq!(before, format!("{m:?}"), "a rejected edit must not mutate");
    err
}

#[test]
fn a_refused_step_is_named() {
    let mut m = seeded();
    let fine = || Op::SetGlobalSeq(1 << 40);
    let refused = || Op::DropCf { name: "nowhere".into() };
    for n in [0usize, 1, 12] {
        let mut ops: Vec<Op> = (0..n).map(|_| fine()).collect();
        ops.push(refused());
        let err = reject(&mut m, ops.clone());
        assert!(err.message().starts_with(&format!("manifest edit: op index {n}: ")), "{err:?}");
        let err = CatalogReplayer::new(m.clone()).apply(&VersionEdit::new(ops)).unwrap_err();
        assert!(err.message().contains(&format!("op index {n}: ")), "{err:?}");
    }
}

#[test]
fn add_table_rejects_a_duplicate_id() {
    let mut m = seeded();
    reject(
        &mut m,
        vec![Op::AddTable {
            cf: "cf".into(),
            meta: SstMeta {
                id: 1,
                ..SstMeta::default()
            },
        }],
    );
    // ... and an unknown column family.
    reject(
        &mut m,
        vec![Op::AddTable {
            cf: "nope".into(),
            meta: SstMeta {
                id: 9,
                ..SstMeta::default()
            },
        }],
    );
}

#[test]
fn remove_table_rejects_a_wrong_level() {
    let mut m = seeded();
    reject(
        &mut m,
        vec![Op::RemoveTable {
            cf: "cf".into(),
            id: 1,
            expected_level: 5,
        }],
    );
    reject(
        &mut m,
        vec![Op::RemoveTable {
            cf: "cf".into(),
            id: 77,
            expected_level: 2,
        }],
    );
    apply_edit(
        &mut m,
        &VersionEdit::new(vec![Op::RemoveTable {
            cf: "cf".into(),
            id: 1,
            expected_level: 2,
        }]),
    )
    .expect("the right level removes");
    assert!(m.cfs[0].sstables.is_empty());
}

#[test]
fn update_table_rejects_a_missing_id() {
    let mut m = seeded();
    reject(
        &mut m,
        vec![Op::UpdateTable {
            cf: "cf".into(),
            id: 42,
            update: TableUpdate {
                level: Some(1),
                ..Default::default()
            },
        }],
    );
}

#[test]
fn create_cf_rejects_an_existing_name() {
    let mut m = seeded();
    reject(
        &mut m,
        vec![Op::CreateCf {
            name: "cf".into(),
            config: Vec::new(),
        }],
    );
}

/// A CF is dropped only once the same edit has removed every one of its
/// tables — otherwise the drop would silently orphan them.
#[test]
fn drop_cf_rejects_leftover_tables_in_the_same_edit() {
    let mut m = seeded();
    reject(&mut m, vec![Op::DropCf { name: "cf".into() }]);
    apply_edit(
        &mut m,
        &VersionEdit::new(vec![
            Op::RemoveTables {
                cf: "cf".into(),
                ids: vec![1],
            },
            Op::DropCf { name: "cf".into() },
        ]),
    )
    .expect("drop after removing every table");
    assert!(m.cfs.is_empty());
    // And a second drop of a now-absent CF is rejected.
    reject(&mut m, vec![Op::DropCf { name: "cf".into() }]);
}

#[test]
fn set_next_file_id_rejects_a_decrease() {
    let mut m = seeded();
    apply_edit(&mut m, &VersionEdit::new(vec![Op::SetNextFileId(50)])).unwrap();
    reject(&mut m, vec![Op::SetNextFileId(49)]);
    apply_edit(&mut m, &VersionEdit::new(vec![Op::SetNextFileId(50)]))
        .expect("equal is allowed");
}

#[test]
fn set_global_seq_rejects_a_decrease() {
    let mut m = seeded();
    apply_edit(&mut m, &VersionEdit::new(vec![Op::SetGlobalSeq(9)])).unwrap();
    reject(&mut m, vec![Op::SetGlobalSeq(8)]);
}

#[test]
fn set_wal_layout_is_one_way() {
    let mut m = seeded();
    apply_edit(
        &mut m,
        &VersionEdit::new(vec![Op::SetWalLayout(WalLayout::Unified)]),
    )
    .unwrap();
    assert_eq!(m.wal_layout, WalLayout::Unified);
    reject(&mut m, vec![Op::SetWalLayout(WalLayout::Unified)]);
    let mut fresh = seeded();
    reject(
        &mut fresh,
        vec![Op::SetWalLayout(WalLayout::PerColumnFamily)],
    );
}

#[test]
fn set_nonce_rejects_a_second_mint() {
    let mut m = seeded();
    apply_edit(&mut m, &VersionEdit::new(vec![Op::SetNonce(7)])).unwrap();
    reject(&mut m, vec![Op::SetNonce(7)]);
    reject(&mut m, vec![Op::SetNonce(8)]);
}

#[test]
fn set_capability_rejects_unknown_bits() {
    let mut m = seeded();
    let err = apply_edit(&mut m, &VersionEdit::new(vec![Op::SetCapability(1 << 40)]))
        .expect_err("an unimplemented capability bit must fail closed");
    assert_eq!(err.kind(), "unsupported_format");
    assert_eq!(m.caps, 0, "a rejected edit must not mutate");
    apply_edit(
        &mut m,
        &VersionEdit::new(vec![Op::SetCapability(ondadb::format::CAP_MANIFEST_EDITS)]),
    )
    .unwrap();
    assert_eq!(m.caps, ondadb::format::CAP_MANIFEST_EDITS);
}

#[test]
fn remove_tables_rejects_an_absent_id() {
    let mut m = seeded();
    reject(
        &mut m,
        vec![Op::RemoveTables {
            cf: "cf".into(),
            ids: vec![1, 2],
        }],
    );
    assert_eq!(m.cfs[0].sstables.len(), 1, "the present id stays too");
}

/// The all-or-nothing guarantee, stated once on its own: a failure in the
/// middle of a multi-op edit leaves nothing behind.
#[test]
fn a_failed_precondition_leaves_the_manifest_untouched() {
    let mut m = seeded();
    reject(
        &mut m,
        vec![
            Op::SetGlobalSeq(100),
            Op::AddTable {
                cf: "cf".into(),
                meta: SstMeta {
                    id: 2,
                    ..SstMeta::default()
                },
            },
            Op::CreateCf {
                name: "cf".into(), // already exists: rejects the whole edit
                config: Vec::new(),
            },
        ],
    );
    assert_eq!(m.global_seq, 0);
    assert_eq!(m.cfs[0].sstables.len(), 1);
}

/// A CF created and populated by the same edit is the `clone_column_family`
/// shape; it must validate against the candidate, not the old catalog.
#[test]
fn a_cf_created_and_populated_in_one_edit_applies() {
    let mut m = seeded();
    apply_edit(
        &mut m,
        &VersionEdit::new(vec![
            Op::CreateCf {
                name: "clone".into(),
                config: vec![7],
            },
            Op::AddTable {
                cf: "clone".into(),
                meta: SstMeta {
                    id: 20,
                    level: 1,
                    ..SstMeta::default()
                },
            },
            Op::AddTable {
                cf: "clone".into(),
                meta: SstMeta {
                    id: 21,
                    level: 1,
                    ..SstMeta::default()
                },
            },
        ]),
    )
    .unwrap();
    let clone = m.cfs.iter().find(|c| c.name == "clone").unwrap();
    assert_eq!(clone.sstables.len(), 2);
    assert_eq!(clone.config, vec![7]);
}

/// The replayer is an optimization of "apply these edits in order", so it
/// must produce byte-identical catalogs. If the two ever diverge, recovery
/// and `catalog_txn` disagree about what a log means.
#[test]
fn the_replayer_matches_repeated_apply_edit() {
    let edits: Vec<VersionEdit> = vec![
        VersionEdit::new(vec![Op::CreateCf {
            name: "b".into(),
            config: vec![9],
        }]),
        VersionEdit::new(vec![Op::AddTable {
            cf: "b".into(),
            meta: SstMeta {
                id: 10,
                level: 1,
                ..SstMeta::default()
            },
        }]),
        VersionEdit::new(vec![Op::UpdateTable {
            cf: "cf".into(),
            id: 1,
            update: TableUpdate::relocation(Some("cold".into()), Some("o".into())),
        }]),
        VersionEdit::new(vec![Op::SetGlobalSeq(400), Op::SetNextFileId(99)]),
        VersionEdit::new(vec![
            Op::RemoveTable {
                cf: "cf".into(),
                id: 1,
                expected_level: 2,
            },
            Op::DropCf { name: "cf".into() },
        ]),
    ];
    let mut one_by_one = seeded();
    for e in &edits {
        apply_edit(&mut one_by_one, e).unwrap();
    }
    let mut replayer = CatalogReplayer::new(seeded());
    for e in &edits {
        replayer.apply(e).unwrap();
    }
    assert_eq!(
        format!("{:?}", replayer.finish()),
        format!("{one_by_one:?}")
    );
}

/// The replayer enforces the same preconditions; it only shares the index.
#[test]
fn the_replayer_rejects_what_apply_edit_rejects() {
    let mut replayer = CatalogReplayer::new(seeded());
    let dup = VersionEdit::new(vec![Op::AddTable {
        cf: "cf".into(),
        meta: SstMeta {
            id: 1,
            ..SstMeta::default()
        },
    }]);
    assert_eq!(replayer.apply(&dup).unwrap_err().kind(), "corruption");
    assert_eq!(
        apply_edit(&mut seeded(), &dup).unwrap_err().kind(),
        "corruption"
    );
}

// -- Log codec ------------------------------------------------------------

#[test]
fn header_bytes_are_frozen() {
    let h = EditLogHeader {
        base_applied_through: 0x0102_0304_0506_0708,
        snapshot_generation: 0x1112_1314_1516_1718,
    };
    let bytes = h.encode();
    assert_eq!(bytes.len(), 32);
    assert_eq!(&bytes[0..8], b"YOLODBED");
    assert_eq!(&bytes[8..12], &[1, 0, 0, 0]);
    assert_eq!(&bytes[12..20], &[8, 7, 6, 5, 4, 3, 2, 1]);
    assert_eq!(
        &bytes[20..28],
        &[0x18, 0x17, 0x16, 0x15, 0x14, 0x13, 0x12, 0x11]
    );
    assert_eq!(read_u32(&bytes[28..32]), checksum(&bytes[..28]));
    assert_eq!(EditLogHeader::decode(&bytes).unwrap(), h);
}

#[test]
fn record_bytes_are_frozen() {
    let edit = VersionEdit::new(vec![Op::SetGlobalSeq(300)]);
    let rec = encode_record(0x0A0B_0C0D_0E0F_1011, &edit);
    // payload: edit id (8 LE) | op count (uvarint 1) | code 8 | uvarint 300
    let payload = &rec[8..];
    assert_eq!(
        payload,
        &[
            0x11, 0x10, 0x0F, 0x0E, 0x0D, 0x0C, 0x0B, 0x0A, // edit id
            0x01, // one op
            0x08, // SetGlobalSeq
            0xAC, 0x02, // 300 as LEB128
        ]
    );
    assert_eq!(read_u32(&rec[0..4]) as usize, payload.len());
    assert_eq!(read_u32(&rec[4..8]), checksum(payload));
}

fn log_with(records: &[(u64, VersionEdit)]) -> Vec<u8> {
    let mut file = EditLogHeader {
        base_applied_through: 0,
        snapshot_generation: 1,
    }
    .encode();
    for (id, edit) in records {
        file.extend_from_slice(&encode_record(*id, edit));
    }
    file
}

fn sample_records() -> Vec<(u64, VersionEdit)> {
    vec![
        (1, VersionEdit::new(vec![Op::SetGlobalSeq(1)])),
        (2, VersionEdit::new(vec![Op::SetNextFileId(9)])),
    ]
}

#[test]
fn short_file_is_corruption() {
    for len in [0usize, 1, 27, 31] {
        let err = EditLogHeader::decode(&vec![0u8; len])
            .expect_err("a file shorter than the header is never a torn tail");
        assert_eq!(err.kind(), "corruption");
    }
}

#[test]
fn bad_header_crc_is_corruption() {
    let mut file = log_with(&sample_records());
    file[14] ^= 0xFF;
    assert_eq!(
        EditLogHeader::decode(&file).unwrap_err().kind(),
        "corruption"
    );
}

#[test]
fn unknown_magic_is_corruption() {
    let mut head = EditLogHeader {
        base_applied_through: 3,
        snapshot_generation: 1,
    }
    .encode();
    head[0] = b'W';
    let crc = checksum(&head[..28]);
    put_u32_at(&mut head, 28, crc);
    let err = EditLogHeader::decode(&head).expect_err("a foreign magic must fail closed");
    assert_eq!(err.kind(), "corruption");
    // A log of the older format is a named refusal.
    head[..4].copy_from_slice(&LEGACY_EDIT_LOG_MAGIC.to_le_bytes());
    assert_eq!(
        EditLogHeader::decode(&head).unwrap_err().kind(),
        "unsupported_format"
    );
}

#[test]
fn unknown_schema_is_unsupported_format() {
    let mut head = EditLogHeader {
        base_applied_through: 3,
        snapshot_generation: 1,
    }
    .encode();
    head[8] = 2;
    let crc = checksum(&head[..28]);
    put_u32_at(&mut head, 28, crc);
    assert_eq!(
        EditLogHeader::decode(&head).unwrap_err().kind(),
        "unsupported_format"
    );
}

#[test]
fn truncated_record_header_is_a_clean_tail() {
    let full = log_with(&sample_records());
    for cut in 1..EDIT_RECORD_HEADER_BYTES {
        let mut file = full.clone();
        file.truncate(full.len() - encoded_len(&sample_records()[1]) + cut);
        let (records, _) = decode_records(&file).expect("an EOF-truncated frame ends replay");
        assert_eq!(records.len(), 1, "cut={cut}");
    }
}

fn encoded_len(rec: &(u64, VersionEdit)) -> usize {
    encode_record(rec.0, &rec.1).len()
}

#[test]
fn truncated_record_payload_is_a_clean_tail() {
    let full = log_with(&sample_records());
    let last = encoded_len(&sample_records()[1]);
    for cut in EDIT_RECORD_HEADER_BYTES..last {
        let mut file = full.clone();
        file.truncate(full.len() - last + cut);
        let (records, off) = decode_records(&file).expect("a partial payload ends replay");
        assert_eq!(records.len(), 1, "cut={cut}");
        assert_eq!(
            off,
            full.len() - last,
            "append must overwrite the torn tail"
        );
    }
}

#[test]
fn complete_record_with_bad_crc_is_corruption() {
    let mut file = log_with(&sample_records());
    let last = file.len() - 1;
    file[last] ^= 0xFF; // inside the final payload
    let err = decode_records(&file)
        .expect_err("a complete record with a bad CRC is never a torn tail");
    assert_eq!(err.kind(), "corruption");
    assert!(err.to_string().contains("CRC"), "{err:?}");
}

#[test]
fn oversized_record_length_is_corruption_before_allocation() {
    let mut file = EditLogHeader {
        base_applied_through: 0,
        snapshot_generation: 1,
    }
    .encode();
    append_u32(&mut file, u32::MAX); // > 64 MiB, and nothing follows it
    append_u32(&mut file, 0);
    let err = decode_records(&file).expect_err("an oversized length must fail closed");
    assert_eq!(err.kind(), "corruption");
    assert!(err.to_string().contains("cap"), "{err:?}");
}

#[test]
fn records_round_trip_through_the_log() {
    let recs = sample_records();
    let (back, off) = decode_records(&log_with(&recs)).unwrap();
    assert_eq!(back.len(), 2);
    assert_eq!(back[0].edit_id, 1);
    assert_eq!(back[1].edit, recs[1].1);
    assert_eq!(off, log_with(&recs).len());
}
