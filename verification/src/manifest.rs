//! The catalog: which column families exist and which tables each one holds.

use vstd::prelude::*;

use crate::text::copy_opt_string;

verus! {

/// How the write-ahead log is laid out.
#[derive(Debug, Clone, Copy, PartialEq, Eq, Structural)]
pub enum WalLayout {
    PerColumnFamily,
    Unified,
}

/// One table of a column family.
#[derive(Debug, Clone, PartialEq, Eq)]
pub struct SstMeta {
    pub id: u64,
    pub level: u32,
    pub num_entries: u64,
    pub num_tombstones: u64,
    pub max_seq: u64,
    pub klog_size: u64,
    pub vlog_size: u64,
    pub min_key: Vec<u8>,
    pub max_key: Vec<u8>,
    pub partition: Option<String>,
    pub tier: Option<String>,
    pub max_entry_time: Option<i64>,
    pub object: Option<String>,
    pub last_compaction_time: Option<i64>,
    pub range_count: u64,
    pub range_min_seq: u64,
    pub range_max_seq: u64,
    pub range_min_key: Option<Vec<u8>>,
    pub range_max_key: Option<Vec<u8>>,
}

/// A table as mathematics: text as characters, keys as bytes.
#[verifier::ext_equal]
pub struct SstMetaView {
    pub id: u64,
    pub level: u32,
    pub num_entries: u64,
    pub num_tombstones: u64,
    pub max_seq: u64,
    pub klog_size: u64,
    pub vlog_size: u64,
    pub min_key: Seq<u8>,
    pub max_key: Seq<u8>,
    pub partition: Option<Seq<char>>,
    pub tier: Option<Seq<char>>,
    pub max_entry_time: Option<i64>,
    pub object: Option<Seq<char>>,
    pub last_compaction_time: Option<i64>,
    pub range_count: u64,
    pub range_min_seq: u64,
    pub range_max_seq: u64,
    pub range_min_key: Option<Seq<u8>>,
    pub range_max_key: Option<Seq<u8>>,
}

/// The bytes of an optional key.
pub open spec fn opt_key(k: Option<Vec<u8>>) -> Option<Seq<u8>> {
    match k {
        None => None,
        Some(b) => Some(b@),
    }
}

/// A copy of an optional key.
pub fn copy_opt_key(k: &Option<Vec<u8>>) -> (r: Option<Vec<u8>>)
    ensures
        opt_key(r) == opt_key(*k),
{
    match k {
        None => None,
        Some(b) => Some(crate::encoding::copy_bytes(b.as_slice())),
    }
}

impl View for SstMeta {
    type V = SstMetaView;

    open spec fn view(&self) -> SstMetaView {
        SstMetaView {
            id: self.id,
            level: self.level,
            num_entries: self.num_entries,
            num_tombstones: self.num_tombstones,
            max_seq: self.max_seq,
            klog_size: self.klog_size,
            vlog_size: self.vlog_size,
            min_key: self.min_key@,
            max_key: self.max_key@,
            partition: crate::text::opt_text(self.partition),
            tier: crate::text::opt_text(self.tier),
            max_entry_time: self.max_entry_time,
            object: crate::text::opt_text(self.object),
            last_compaction_time: self.last_compaction_time,
            range_count: self.range_count,
            range_min_seq: self.range_min_seq,
            range_max_seq: self.range_max_seq,
            range_min_key: opt_key(self.range_min_key),
            range_max_key: opt_key(self.range_max_key),
        }
    }
}

/// A table of which nothing is known yet.
pub open spec fn blank_sst() -> SstMetaView {
    SstMetaView {
        id: 0,
        level: 0,
        num_entries: 0,
        num_tombstones: 0,
        max_seq: 0,
        klog_size: 0,
        vlog_size: 0,
        min_key: Seq::empty(),
        max_key: Seq::empty(),
        partition: None,
        tier: None,
        max_entry_time: None,
        object: None,
        last_compaction_time: None,
        range_count: 0,
        range_min_seq: 0,
        range_max_seq: 0,
        range_min_key: None,
        range_max_key: None,
    }
}

impl Default for SstMeta {
    fn default() -> (r: SstMeta)
        ensures
            r@ == blank_sst(),
    {
        SstMeta {
            id: 0,
            level: 0,
            num_entries: 0,
            num_tombstones: 0,
            max_seq: 0,
            klog_size: 0,
            vlog_size: 0,
            min_key: Vec::new(),
            max_key: Vec::new(),
            partition: None,
            tier: None,
            max_entry_time: None,
            object: None,
            last_compaction_time: None,
            range_count: 0,
            range_min_seq: 0,
            range_max_seq: 0,
            range_min_key: None,
            range_max_key: None,
        }
    }
}

impl SstMeta {
    /// A copy.
    pub fn duplicate(&self) -> (r: SstMeta)
        ensures
            r@ == self@,
    {
        SstMeta {
            id: self.id,
            level: self.level,
            num_entries: self.num_entries,
            num_tombstones: self.num_tombstones,
            max_seq: self.max_seq,
            klog_size: self.klog_size,
            vlog_size: self.vlog_size,
            min_key: self.min_key.clone(),
            max_key: self.max_key.clone(),
            partition: copy_opt_string(&self.partition),
            tier: copy_opt_string(&self.tier),
            max_entry_time: self.max_entry_time,
            object: copy_opt_string(&self.object),
            last_compaction_time: self.last_compaction_time,
            range_count: self.range_count,
            range_min_seq: self.range_min_seq,
            range_max_seq: self.range_max_seq,
            range_min_key: copy_opt_key(&self.range_min_key),
            range_max_key: copy_opt_key(&self.range_max_key),
        }
    }
}

/// The tables of a column family as mathematics.
pub open spec fn sst_views(s: Seq<SstMeta>) -> Seq<SstMetaView> {
    s.map_values(|m: SstMeta| m@)
}

/// One column family.
#[derive(Debug, Clone, PartialEq, Eq)]
pub struct CfManifest {
    pub name: String,
    pub config: Vec<u8>,
    pub sstables: Vec<SstMeta>,
    pub unified_id: Option<u64>,
}

#[verifier::ext_equal]
pub struct CfView {
    pub name: Seq<char>,
    pub config: Seq<u8>,
    pub sstables: Seq<SstMetaView>,
    pub unified_id: Option<u64>,
}

impl View for CfManifest {
    type V = CfView;

    open spec fn view(&self) -> CfView {
        CfView {
            name: self.name@,
            config: self.config@,
            sstables: sst_views(self.sstables@),
            unified_id: self.unified_id,
        }
    }
}

/// The column families of a catalog as mathematics.
pub open spec fn cf_views(s: Seq<CfManifest>) -> Seq<CfView> {
    s.map_values(|c: CfManifest| c@)
}

/// The whole catalog.
#[derive(Debug, Clone, PartialEq, Eq)]
pub struct Manifest {
    pub next_file_id: u64,
    pub global_seq: u64,
    pub wal_layout: WalLayout,
    pub instance_nonce: Option<u64>,
    pub caps: u64,
    pub generation: u64,
    pub applied_through: u64,
    pub next_edit_id: u64,
    pub cfs: Vec<CfManifest>,
}

#[verifier::ext_equal]
pub struct ManifestView {
    pub next_file_id: u64,
    pub global_seq: u64,
    pub wal_layout: WalLayout,
    pub instance_nonce: Option<u64>,
    pub caps: u64,
    pub generation: u64,
    pub applied_through: u64,
    pub next_edit_id: u64,
    pub cfs: Seq<CfView>,
}

impl View for Manifest {
    type V = ManifestView;

    open spec fn view(&self) -> ManifestView {
        ManifestView {
            next_file_id: self.next_file_id,
            global_seq: self.global_seq,
            wal_layout: self.wal_layout,
            instance_nonce: self.instance_nonce,
            caps: self.caps,
            generation: self.generation,
            applied_through: self.applied_through,
            next_edit_id: self.next_edit_id,
            cfs: cf_views(self.cfs@),
        }
    }
}

impl Default for Manifest {
    fn default() -> (r: Manifest)
        ensures
            r@ == (ManifestView {
                next_file_id: 0,
                global_seq: 0,
                wal_layout: WalLayout::PerColumnFamily,
                instance_nonce: None,
                caps: 0,
                generation: 0,
                applied_through: 0,
                next_edit_id: 0,
                cfs: Seq::empty(),
            }),
    {
        let r = Manifest {
            next_file_id: 0,
            global_seq: 0,
            wal_layout: WalLayout::PerColumnFamily,
            instance_nonce: None,
            caps: 0,
            generation: 0,
            applied_through: 0,
            next_edit_id: 0,
            cfs: Vec::new(),
        };
        assert(r@.cfs =~= Seq::<CfView>::empty());
        r
    }
}

} // verus!
