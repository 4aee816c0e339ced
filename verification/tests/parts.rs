//! Parts: where they go, and what describes them.

use sha2::Digest;

use ondadb::comparator::{default_comparator, Bytewise};
use ondadb::db::{ColumnFamily, PartitionRule, TierDef, TierRule, DB};
use ondadb::error::OndaError;
use ondadb::manifest::SstMeta;
use ondadb::move_run::{MoveAction, MoveRun};
use ondadb::part_attach::TableFacts;
use ondadb::part_move::{
    eligible_part_target, object_name, observe_move, span_to_lock, still_spans, BottomPart, MovePhase, MovePhaseEvent,
    MovePhaseObserver, SpanLock,
};
use ondadb::parts::{part_digest, table_content, DetachedPart, PartTable};
use ondadb::read_profile::ReadProfiler;
use ondadb::snapshot::SnapshotPins;
use ondadb::storage::{TierEntry, TierRegistry};

fn part(tier: Option<&str>, newest: Option<i64>) -> BottomPart {
    BottomPart {
        partition: "part".into(),
        min_key: b"logs/2026".to_vec(),
        tier: tier.map(str::to_owned),
        max_entry_time: newest,
    }
}

fn cold() -> TierRule {
    TierRule {
        prefix: b"logs/".to_vec(),
        tier: "cold".into(),
        min_age: 10,
    }
}

#[test]
fn mover_policy_requires_a_named_different_and_old_enough_target() {
    let default = TierRule {
        tier: "ssd".into(),
        ..cold()
    };

    assert_eq!(
        eligible_part_target(&vec![cold()], &part(None, Some(80)), 100),
        Some("cold")
    );
    assert_eq!(
        eligible_part_target(&vec![cold()], &part(None, Some(90)), 100),
        None
    );
    assert_eq!(
        eligible_part_target(&vec![cold()], &part(None, None), 100),
        None
    );
    assert_eq!(
        eligible_part_target(&vec![cold()], &part(Some("cold"), Some(0)), 100),
        None
    );
    assert_eq!(
        eligible_part_target(&vec![default], &part(Some("cold"), Some(0)), 100),
        None
    );
}

// ---------------------------------------------------------------------------

fn db() -> DB {
    DB {
        id: 7,
        read_only: false,
        poisoned: false,
        tiers: vec![
            TierDef {
                name: "cold".into(),
                shared: false,
            },
            TierDef {
                name: "lake".into(),
                shared: true,
            },
        ],
        roots: TierRegistry {
            default_root: "/db".into(),
            tiers: vec![
                TierEntry {
                    name: "cold".into(),
                    root: "/cold".into(),
                },
                TierEntry {
                    name: "lake".into(),
                    root: "/lake".into(),
                },
            ],
        },
        instance_nonce: Some(0xABCD),
        next_file_id: 100,
        visible_seq: 50,
        caps: 0,
        unified_memtable: false,
        snapshots: SnapshotPins::new(),
        profile: ReadProfiler::default(),
    }
}

fn meta(id: u64, min: &str, max: &str, partition: Option<&str>, tier: Option<&str>) -> SstMeta {
    SstMeta {
        id,
        level: 6,
        num_entries: 10,
        max_seq: 20,
        klog_size: 100,
        vlog_size: 50,
        min_key: min.as_bytes().to_vec(),
        max_key: max.as_bytes().to_vec(),
        partition: partition.map(str::to_owned),
        tier: tier.map(str::to_owned),
        ..SstMeta::default()
    }
}

fn family(bottom: Vec<SstMeta>) -> ColumnFamily<Bytewise> {
    ColumnFamily {
        name: "default".into(),
        ord: default_comparator(),
        bottom_level: 6,
        bottom,
        partition_rules: Vec::new(),
        tier_rules: Vec::new(),
    }
}

fn two_parts() -> ColumnFamily<Bytewise> {
    family(vec![
        meta(1, "a", "c", Some("p"), None),
        meta(2, "d", "f", Some("p"), Some("cold")),
        meta(3, "x", "z", Some("q"), None),
    ])
}

#[test]
fn a_relocation_moves_what_is_not_there_yet() {
    let d = db();
    let cf = two_parts();
    let m = d.move_part_to_tier(&cf, "p", "cold").unwrap();
    assert_eq!(m.from.len(), 1);
    assert_eq!(m.from[0].id, 1);
    assert_eq!(m.to[0].tier.as_deref(), Some("cold"));
    assert_eq!(m.to[0].object, None);
    assert_eq!(m.sources, vec!["/db/cf-default/1.klog"]);
    assert_eq!(m.targets, vec!["/cold/cf-default/1.klog"]);

    let m = d.relocate_part(&cf, "p", "lake").unwrap();
    assert_eq!(m.from.len(), 2);
    assert_eq!(m.sources[1], "/cold/cf-default/2.klog");
    assert_eq!(m.to[1].object.as_deref(), Some("cf-default/000000000000abcd-2"));
    assert_eq!(m.targets[1], "/lake/cf-default/000000000000abcd-2.klog");
    assert_eq!(object_name("x", 255, 12), "cf-x/00000000000000ff-12");

    assert_eq!(d.relocate_part(&cf, "p", "nowhere").unwrap_err().kind(), "invalid_args");
    assert_eq!(d.relocate_part(&cf, "none", "cold").unwrap_err().kind(), "not_found");
    let mut ro = db();
    ro.read_only = true;
    assert_eq!(ro.relocate_part(&cf, "p", "cold").unwrap_err().kind(), "read_only");
    let mut bad = db();
    bad.poisoned = true;
    assert_eq!(bad.relocate_part(&cf, "p", "cold").unwrap_err().kind(), "poisoned");
}

#[test]
fn a_move_flips_the_catalog_only_after_every_copy() {
    let d = db();
    let mut cf = two_parts();
    let plan = d.relocate_part(&cf, "p", "lake").unwrap();
    let mut run = MoveRun::begin(plan, &vec![true, false]);
    let mut objects = Vec::new();
    while let MoveAction::Copy(i) = run.next_action() {
        let (from, to) = run.object(i);
        objects.push((from.to_owned(), to.to_owned()));
        assert_eq!(
            run.copy_phase(),
            MovePhase::CopyComplete {
                object_index: i + 1,
                object_count: 3
            }
        );
        run.copied(Ok(())).unwrap();
    }
    assert_eq!(objects[1].0, "/db/cf-default/1.vlog");
    assert_eq!(objects.len(), 3);
    assert_eq!(run.next_action(), MoveAction::ReportDurable);
    run.synced(Ok(())).unwrap();
    assert_eq!(run.next_action(), MoveAction::Flip);
    run.flip(&mut cf);
    assert_eq!(cf.bottom[0].tier.as_deref(), Some("lake"));
    assert_eq!(cf.bottom[1].tier.as_deref(), Some("lake"));
    assert_eq!(cf.bottom[2].tier, None);
    assert_eq!(run.next_action(), MoveAction::Persist);
    run.persisted(Ok(())).unwrap();
    assert_eq!(run.next_action(), MoveAction::DeleteSources);
    assert_eq!(run.deleted(2), MovePhase::SourceDeleteFinished { remaining_files: 2 });
    assert_eq!(run.next_action(), MoveAction::Nothing);
    // What lies on a shared tier stays, so asking again does nothing.
    let again = d.relocate_part(&cf, "p", "cold").unwrap();
    assert!(again.from.is_empty());
    assert_eq!(MoveRun::begin(again, &Vec::new()).next_action(), MoveAction::Nothing);
}

#[test]
fn a_failed_copy_leaves_the_catalog_alone() {
    let d = db();
    let cf = two_parts();
    let plan = d.relocate_part(&cf, "p", "cold").unwrap();
    let mut run = MoveRun::begin(plan, &vec![false]);
    assert_eq!(run.plan().from[0].id, 1);
    let e = run.copied(Err(OndaError::NotFound)).unwrap_err();
    assert_eq!(e.kind(), "not_found");
    assert_eq!(run.next_action(), MoveAction::Nothing);
}

#[test]
fn sources_stay_where_the_catalog_is_not_durable() {
    let d = db();
    let mut cf = two_parts();
    let plan = d.relocate_part(&cf, "p", "cold").unwrap();
    let mut run = MoveRun::begin(plan, &vec![false]);
    run.copied(Ok(())).unwrap();
    run.synced(Ok(())).unwrap();
    run.flip(&mut cf);
    let e = run.persisted(Err(OndaError::Poisoned("disk full".into()))).unwrap_err();
    assert_eq!(e.kind(), "poisoned");
    assert_eq!(run.next_action(), MoveAction::Nothing);
}

struct Counts(std::cell::RefCell<Vec<MovePhase>>);

impl MovePhaseObserver for Counts {
    fn observe(&self, event: &MovePhaseEvent<'_>) -> Result<(), OndaError> {
        self.0.borrow_mut().push(event.phase.clone());
        Err(OndaError::InvalidArgs("heard".into()))
    }
}

#[test]
fn an_observer_hears_of_every_boundary() {
    let seen = Counts(std::cell::RefCell::new(Vec::new()));
    let phases = [
        MovePhase::CopyComplete {
            object_index: 1,
            object_count: 1,
        },
        MovePhase::DestinationSynced,
        MovePhase::ManifestFlipped,
        MovePhase::SourceDeleteFinished { remaining_files: 2 },
    ];
    let mut answers = Vec::new();
    for phase in &phases {
        let event = MovePhaseEvent {
            cf_name: "default",
            partition: "p",
            destination_tier: "cold",
            phase: phase.clone(),
        };
        answers.push(observe_move(Some(&seen), &event).is_ok());
    }
    assert_eq!(seen.0.borrow().as_slice(), &phases);
    assert_eq!(answers, [false, false, true, true]);
}

struct Refuses;

impl MovePhaseObserver for Refuses {
    fn observe(&self, event: &MovePhaseEvent<'_>) -> Result<(), OndaError> {
        assert_eq!(event.partition, "p");
        Err(OndaError::InvalidArgs("stop".into()))
    }
}

#[test]
fn an_observer_can_stop_a_move_until_the_catalog_is_flipped() {
    let event = |phase: MovePhase| MovePhaseEvent {
        cf_name: "default",
        partition: "p",
        destination_tier: "cold",
        phase,
    };
    let copied = MovePhase::CopyComplete {
        object_index: 1,
        object_count: 4,
    };
    assert!(observe_move(Some(&Refuses), &event(copied.clone())).is_err());
    assert!(observe_move(Some(&Refuses), &event(MovePhase::DestinationSynced)).is_err());
    assert!(observe_move(Some(&Refuses), &event(MovePhase::ManifestFlipped)).is_ok());
    let none: Option<&Refuses> = None;
    assert!(observe_move(none, &event(copied.clone())).is_ok());
    assert!(copied.same_kind(&MovePhase::CopyComplete {
        object_index: 9,
        object_count: 9
    }));
    assert!(!copied.same_kind(&MovePhase::DestinationSynced));
}

#[test]
fn a_mover_pass_lists_the_parts_that_are_due() {
    let d = db();
    let mut hot = part(None, Some(95));
    hot.partition = "hot".into();
    let parts = vec![part(None, Some(0)), hot, part(Some("cold"), Some(0))];
    assert_eq!(d.run_part_mover(&vec![cold()], &parts, 100).unwrap(), vec![(0, 0)]);
    let mut ro = db();
    ro.read_only = true;
    assert!(ro.run_part_mover(&vec![cold()], &parts, 100).unwrap().is_empty());
    let mut bad = db();
    bad.poisoned = true;
    assert_eq!(
        bad.run_part_mover(&vec![cold()], &parts, 100).unwrap_err().kind(),
        "poisoned"
    );
    // What lies on a shared tier stays there, however old it is.
    let published = vec![part(Some("lake"), Some(0))];
    assert!(d.run_part_mover(&vec![cold()], &published, 100).unwrap().is_empty());
    let mut patient = cold();
    patient.min_age = u64::MAX as u128;
    assert!(d.run_part_mover(&vec![patient], &parts, 100).unwrap().is_empty());
    // The age of a part stays within its type.
    assert_eq!(
        eligible_part_target(&vec![cold()], &part(None, Some(i64::MIN)), i64::MAX),
        Some("cold")
    );
}

#[test]
fn partitions_are_listed_by_name() {
    let named = |n: &str| BottomPart {
        partition: n.into(),
        ..part(None, None)
    };
    let got = db().list_partitions(&vec![named("b"), named("c"), named("a")]);
    let names: Vec<&str> = got.iter().map(|p| p.partition.as_str()).collect();
    assert_eq!(names, vec!["a", "b", "c"]);
    assert_eq!(got[0].min_key, b"logs/2026");
}

#[test]
fn partition_rules_are_added_and_removed_by_prefix() {
    let d = db();
    let mut cf = family(Vec::new());
    let rule = |p: &str, n: &str| PartitionRule {
        prefix: p.as_bytes().to_vec(),
        name: n.into(),
    };
    d.add_partition_rule(&mut cf, rule("img/", "images")).unwrap();
    d.add_partition_rule(&mut cf, rule("img/raw/", "raw")).unwrap();
    assert_eq!(
        d.add_partition_rule(&mut cf, rule("img/", "again")).unwrap_err().kind(),
        "invalid_args"
    );
    assert_eq!(cf.partition_of(b"img/raw/1"), Some("raw"));
    assert_eq!(cf.partition_of(b"img/1"), Some("images"));
    assert_eq!(cf.partition_of(b"doc/1"), None);
    d.remove_partition_rule(&mut cf, b"img/raw/").unwrap();
    assert_eq!(cf.partition_of(b"img/raw/1"), Some("images"));
    assert_eq!(
        d.remove_partition_rule(&mut cf, b"img/raw/").unwrap_err().kind(),
        "not_found"
    );
}

#[test]
fn a_locked_span_covers_its_tables() {
    let cf = two_parts();
    let part = cf.partition_tables("p");
    let r = span_to_lock(&cf.ord, &part);
    assert_eq!(r.min.as_deref(), Some(&b"a"[..]));
    assert_eq!(r.max.as_deref(), Some(&b"f"[..]));
    assert!(still_spans(&cf.ord, &part, &r));
    let wider = vec![meta(9, "a", "g", Some("p"), None)];
    assert!(!still_spans(&cf.ord, &wider, &r));
    assert_eq!(span_to_lock(&cf.ord, &Vec::new()).min, None);
}

#[test]
fn a_part_that_keeps_growing_is_locked_whole() {
    let cf = two_parts();
    let still = cf.partition_tables("p");
    let mut lock = SpanLock::begin(&cf.ord, &still);
    assert_eq!(lock.range().max.as_deref(), Some(&b"f"[..]));
    assert!(lock.acquired(&cf.ord, &still));

    let mut lock = SpanLock::begin(&cf.ord, &still);
    for max in ["g", "h", "i"] {
        let grown = vec![meta(9, "a", max, Some("p"), None)];
        assert!(!lock.acquired(&cf.ord, &grown));
        assert_eq!(lock.range().max.as_deref(), Some(max.as_bytes()));
    }
    let grown = vec![meta(9, "a", "j", Some("p"), None)];
    assert!(!lock.acquired(&cf.ord, &grown));
    assert_eq!((&lock.range().min, &lock.range().max), (&None, &None));
    assert!(lock.acquired(&cf.ord, &vec![meta(9, "A", "z", Some("p"), None)]));

    let mut none = SpanLock::begin(&cf.ord, &Vec::new());
    assert_eq!(none.range().min, None);
    assert!(none.acquired(&cf.ord, &still));
}

#[test]
fn a_detached_part_leaves_the_catalog() {
    let d = db();
    let mut cf = two_parts();
    let t = d.detach_part(&mut cf, "p").unwrap();
    assert_eq!(t.iter().map(|m| m.id).collect::<Vec<_>>(), vec![1, 2]);
    assert_eq!(cf.bottom.len(), 1);
    assert_eq!(d.detach_part(&mut cf, "p").unwrap_err().kind(), "not_found");
    let plan = DetachedPart::plan("/db/cf-default", "p", &t, &vec![false, true]);
    assert_eq!(plan.dir, "/db/cf-default/detached/p");
    assert_eq!(
        plan.files,
        vec![
            "/db/cf-default/detached/p/1.klog",
            "/db/cf-default/detached/p/2.klog",
            "/db/cf-default/detached/p/2.vlog",
        ]
    );
    let mut shared = family(vec![meta(1, "a", "c", Some("p"), Some("lake"))]);
    assert_eq!(d.detach_part(&mut shared, "p").unwrap_err().kind(), "invalid_args");
    assert_eq!(shared.bottom.len(), 1);
    assert_eq!(
        d.freeze_part(&shared, "p", Vec::new()).unwrap_err().kind(),
        "invalid_args"
    );
}

#[test]
fn a_frozen_part_is_a_catalog_of_its_own() {
    let d = db();
    let cf = two_parts();
    let m = d.freeze_part(&cf, "p", vec![1, 2]).unwrap();
    assert_eq!(m.cfs.len(), 1);
    assert_eq!(m.cfs[0].config, vec![1, 2]);
    assert_eq!(m.cfs[0].sstables.len(), 2);
    assert!(m.cfs[0].sstables.iter().all(|t| t.tier.is_none()));
    assert_eq!(m.global_seq, 50);
    assert!(m.next_file_id > 2);
    assert_eq!(d.freeze_part(&cf, "r", Vec::new()).unwrap_err().kind(), "not_found");
}

fn facts(min: &str, max: &str, seq: u64) -> TableFacts {
    TableFacts {
        min_key: min.as_bytes().to_vec(),
        max_key: max.as_bytes().to_vec(),
        max_seq: seq,
        num_entries: 3,
        klog_size: 30,
        vlog_size: 0,
        partition: Some("p".into()),
    }
}

#[test]
fn attached_tables_go_down_where_nothing_is() {
    let mut d = db();
    let mut cf = family(vec![meta(3, "x", "z", Some("q"), None)]);
    let got = d
        .attach_part(&cf, &vec![facts("a", "c", 9), facts("b", "d", 9), facts("y", "zz", 9)], 77)
        .unwrap();
    assert_eq!(got.iter().map(|s| s.meta.id).collect::<Vec<_>>(), vec![100, 101, 102]);
    assert_eq!(got.iter().map(|s| s.meta.level).collect::<Vec<_>>(), vec![6, 0, 0]);
    assert_eq!(got.iter().map(|s| s.at_bottom).collect::<Vec<_>>(), vec![true, false, false]);
    assert_eq!(got[0].meta.partition.as_deref(), Some("p"));
    assert_eq!(got[1].meta.partition, None);
    assert_eq!(got[0].meta.max_entry_time, Some(77));
    assert_eq!(d.next_file_id, 103);
    let top = cf.install(&got);
    assert_eq!(top.iter().map(|m| m.id).collect::<Vec<_>>(), vec![101, 102]);
    assert_eq!(cf.bottom.iter().map(|m| m.id).collect::<Vec<_>>(), vec![100, 3]);
    assert_eq!(
        d.attach_part(&cf, &vec![facts("a", "c", 50), facts("d", "e", 51), facts("f", "g", 0)], 0)
            .unwrap_err()
            .kind(),
        "invalid_args"
    );
    // The table that was refused and the one before it took numbers.
    assert_eq!(d.next_file_id, 105);
    assert_eq!(d.attach_part(&cf, &Vec::new(), 0).unwrap_err().kind(), "invalid_args");
}

fn table_of(m: &SstMeta, content: u8) -> PartTable {
    PartTable::describe(m, [content; 32])
}

#[test]
fn a_part_is_mounted_by_reference_where_its_tables_are_as_described() {
    let mut d = db();
    let cf = family(Vec::new());
    let mut m = meta(4, "a", "c", Some("p"), Some("lake"));
    m.object = Some("cf-default/1-4".into());
    m.max_seq = 900;
    let part = d.export_part(&family(vec![m]), "p", &vec![[1; 32]]).unwrap();
    let found = TableFacts {
        max_seq: 900,
        num_entries: 10,
        klog_size: 100,
        vlog_size: 50,
        ..facts("a", "c", 0)
    };
    let got = d.attach_part_by_ref(&cf, &part, "lake", &vec![found], 5).unwrap();
    assert_eq!(got[0].meta.object.as_deref(), Some("cf-default/1-4"));
    assert_eq!(got[0].meta.tier.as_deref(), Some("lake"));
    assert_eq!(got[0].meta.id, 100);
    assert!(got[0].at_bottom);
    assert_eq!(d.visible_seq, 900);
    let e = d.attach_part_by_ref(&cf, &part, "cold", &vec![facts("a", "c", 900)], 5);
    assert_eq!(e.unwrap_err().kind(), "invalid_args");
    let e = d.attach_part_by_ref(&cf, &part, "lake", &vec![facts("a", "b", 900)], 5);
    assert_eq!(e.unwrap_err().kind(), "invalid_args");
}

#[test]
fn a_detached_part_comes_back_in_any_order() {
    let mut d = db();
    let mut cf = two_parts();
    assert_eq!(d.detach_part(&mut cf, "p").unwrap().len(), 2);
    let got = d
        .attach_part(&cf, &vec![facts("d", "f", 9), facts("a", "c", 9)], 5)
        .unwrap();
    assert!(got.iter().all(|s| s.meta.level == 6 && s.at_bottom));
    assert!(got.iter().all(|s| s.meta.partition.as_deref() == Some("p")));
    assert!(cf.install(&got).is_empty());
    let keys = |f: &ColumnFamily<Bytewise>| -> Vec<(Vec<u8>, Vec<u8>)> {
        f.bottom.iter().map(|m| (m.min_key.clone(), m.max_key.clone())).collect()
    };
    assert_eq!(keys(&cf), keys(&two_parts()));
}

#[test]
fn objects_of_two_databases_have_names_of_their_own() {
    let names = [
        object_name("x", 1, 12),
        object_name("x", 2, 12),
        object_name("x", 1, 2),
        object_name("x/0000000000000001-1", 1, 12),
        object_name("y", 1, 12),
    ];
    for (i, a) in names.iter().enumerate() {
        assert!(names[i + 1..].iter().all(|b| a != b));
    }
}

#[test]
fn a_part_on_a_shared_tier_stays_there() {
    let d = db();
    let cf = family(vec![meta(1, "a", "c", Some("p"), Some("lake"))]);
    assert!(d.relocate_part(&cf, "p", "cold").unwrap().from.is_empty());
}

#[test]
fn a_digest_names_bytes_and_not_places() {
    let d = db();
    let a = meta(1, "a", "c", Some("p"), None);
    let b = meta(2, "d", "f", Some("p"), None);
    let other = || meta(7, "g", "h", Some("q"), None);
    let cf = family(vec![b.duplicate(), other(), a.duplicate()]);
    let one = d.export_part(&cf, "p", &vec![[2; 32], [1; 32]]).unwrap();
    assert_eq!(one.tables.len(), 2);
    assert_eq!(one.tables[0], table_of(&a, 1));
    assert_eq!(one.tables[1], table_of(&b, 2));
    assert_eq!(one.tables[0].min_key, b"a");
    assert_eq!(one.size_bytes(), 300);
    let mut moved_a = meta(8, "a", "c", Some("p"), Some("lake"));
    moved_a.object = Some("elsewhere".into());
    let cf = family(vec![moved_a, b.duplicate()]);
    let two = d.export_part(&cf, "p", &vec![[1; 32], [2; 32]]).unwrap();
    assert_eq!(one.digest, two.digest);
    let cf = family(vec![a.duplicate(), b]);
    let three = d.export_part(&cf, "p", &vec![[1; 32], [3; 32]]).unwrap();
    assert_ne!(one.digest, three.digest);
    assert_eq!(one.digest_hex().len(), 64);
    assert!(one.digest_hex().starts_with(&format!("{:02x}", one.digest[0])));
    assert_eq!(d.export_part(&cf, "r", &Vec::new()).unwrap_err().kind(), "not_found");
    // The digest is that of the canonical bytes, by the digest crate itself.
    let mut bytes = b"ondadb/part/v1".to_vec();
    bytes.extend_from_slice(&1u64.to_be_bytes());
    bytes.extend_from_slice(&[1; 32]);
    for n in [20u64, 10, 100, 50] {
        bytes.extend_from_slice(&n.to_be_bytes());
    }
    for k in [b"a", b"c"] {
        bytes.extend_from_slice(&1u64.to_be_bytes());
        bytes.extend_from_slice(k);
    }
    let want: [u8; 32] = sha2::Sha256::digest(&bytes).into();
    assert_eq!(part_digest(&vec![table_of(&a, 1)]), want);
    let want: [u8; 32] = sha2::Sha256::digest(b"klogvlog").into();
    assert_eq!(table_content(b"klog", b"vlog"), want);
}
