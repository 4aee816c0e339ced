//! The wire format of version edits: how one edit becomes bytes, and which
//! bytes are one.

use vstd::prelude::*;

use crate::error::OndaError;
use crate::manifest::{SstMeta, SstMetaView, WalLayout};
use crate::text::{copy_opt_string, join3, with_number};

verus! {

/// A change to some fields of one table; `None` leaves a field as it is.
#[derive(Debug, Clone, PartialEq, Eq)]
pub struct TableUpdate {
    pub level: Option<u32>,
    pub tier: Option<Option<String>>,
    pub object: Option<Option<String>>,
    pub partition: Option<Option<String>>,
    pub max_entry_time: Option<Option<i64>>,
    pub last_compaction_time: Option<Option<i64>>,
}

#[verifier::ext_equal]
pub struct UpdateView {
    pub level: Option<u32>,
    pub tier: Option<Option<Seq<char>>>,
    pub object: Option<Option<Seq<char>>>,
    pub partition: Option<Option<Seq<char>>>,
    pub max_entry_time: Option<Option<i64>>,
    pub last_compaction_time: Option<Option<i64>>,
}

pub open spec fn opt_opt_text(s: Option<Option<String>>) -> Option<Option<Seq<char>>> {
    match s {
        None => None,
        Some(t) => Some(crate::text::opt_text(t)),
    }
}

impl View for TableUpdate {
    type V = UpdateView;

    open spec fn view(&self) -> UpdateView {
        UpdateView {
            level: self.level,
            tier: opt_opt_text(self.tier),
            object: opt_opt_text(self.object),
            partition: opt_opt_text(self.partition),
            max_entry_time: self.max_entry_time,
            last_compaction_time: self.last_compaction_time,
        }
    }
}

/// An update that changes nothing.
pub open spec fn no_update() -> UpdateView {
    UpdateView {
        level: None,
        tier: None,
        object: None,
        partition: None,
        max_entry_time: None,
        last_compaction_time: None,
    }
}

impl Default for TableUpdate {
    fn default() -> (r: TableUpdate)
        ensures
            r@ == no_update(),
    {
        TableUpdate {
            level: None,
            tier: None,
            object: None,
            partition: None,
            max_entry_time: None,
            last_compaction_time: None,
        }
    }
}

/// One bit for each field that an update names.
pub open spec fn update_mask(u: UpdateView) -> int {
    (if u.level is Some { 1int } else { 0 }) + (if u.tier is Some { 2int } else { 0 })
        + (if u.object is Some { 4int } else { 0 }) + (if u.partition is Some { 8int } else { 0 })
        + (if u.max_entry_time is Some { 16int } else { 0 })
        + (if u.last_compaction_time is Some { 32int } else { 0 })
}

/// A table after an update.
pub open spec fn updated(u: UpdateView, s: SstMetaView) -> SstMetaView {
    SstMetaView {
        level: if u.level is Some { u.level->0 } else { s.level },
        tier: if u.tier is Some { u.tier->0 } else { s.tier },
        object: if u.object is Some { u.object->0 } else { s.object },
        partition: if u.partition is Some { u.partition->0 } else { s.partition },
        max_entry_time: if u.max_entry_time is Some { u.max_entry_time->0 } else { s.max_entry_time },
        last_compaction_time: if u.last_compaction_time is Some {
            u.last_compaction_time->0
        } else {
            s.last_compaction_time
        },
        ..s
    }
}

impl TableUpdate {
    /// One bit for each field that the update names: level, tier, object,
    /// partition, entry time and compaction time, from the lowest bit up.
    pub fn mask(&self) -> (m: u64)
        ensures
            m == update_mask(self@),
            m <= 63,
    {
        let mut m: u64 = 0;
        if self.level.is_some() {
            m += 1;
        }
        if self.tier.is_some() {
            m += 2;
        }
        if self.object.is_some() {
            m += 4;
        }
        if self.partition.is_some() {
            m += 8;
        }
        if self.max_entry_time.is_some() {
            m += 16;
        }
        if self.last_compaction_time.is_some() {
            m += 32;
        }
        m
    }

    /// The update that moves a table to a tier, under an object name.
    pub fn relocation(tier: Option<String>, object: Option<String>) -> (r: TableUpdate)
        ensures
            r@ == (UpdateView { tier: Some(crate::text::opt_text(tier)), object: Some(crate::text::opt_text(object)), ..no_update() }),
    {
        TableUpdate {
            level: None,
            tier: Some(tier),
            object: Some(object),
            partition: None,
            max_entry_time: None,
            last_compaction_time: None,
        }
    }

    /// Change the named fields of `sst`.
    pub(crate) fn apply_to(&self, sst: &mut SstMeta)
        ensures
            final(sst)@ == updated(self@, old(sst)@),
    {
        if let Some(level) = self.level {
            sst.level = level;
        }
        if let Some(tier) = &self.tier {
            sst.tier = copy_opt_string(tier);
        }
        if let Some(object) = &self.object {
            sst.object = copy_opt_string(object);
        }
        if let Some(partition) = &self.partition {
            sst.partition = copy_opt_string(partition);
        }
        if let Some(time) = &self.max_entry_time {
            sst.max_entry_time = *time;
        }
        if let Some(time) = &self.last_compaction_time {
            sst.last_compaction_time = *time;
        }
    }
}

/// One step of a version edit.
#[derive(Debug, Clone, PartialEq, Eq)]
pub enum Op {
    AddTable { cf: String, meta: SstMeta },
    RemoveTable { cf: String, id: u64, expected_level: u32 },
    UpdateTable { cf: String, id: u64, update: TableUpdate },
    CreateCf { name: String, config: Vec<u8> },
    DropCf { name: String },
    SetCfConfig { name: String, config: Vec<u8> },
    SetNextFileId(u64),
    SetGlobalSeq(u64),
    SetWalLayout(WalLayout),
    SetNonce(u64),
    SetCapability(u64),
    RemoveTables { cf: String, ids: Vec<u64> },
}

#[verifier::ext_equal]
pub enum OpView {
    AddTable { cf: Seq<char>, meta: SstMetaView },
    RemoveTable { cf: Seq<char>, id: u64, expected_level: u32 },
    UpdateTable { cf: Seq<char>, id: u64, update: UpdateView },
    CreateCf { name: Seq<char>, config: Seq<u8> },
    DropCf { name: Seq<char> },
    SetCfConfig { name: Seq<char>, config: Seq<u8> },
    SetNextFileId(u64),
    SetGlobalSeq(u64),
    SetWalLayout(WalLayout),
    SetNonce(u64),
    SetCapability(u64),
    RemoveTables { cf: Seq<char>, ids: Seq<u64> },
}

impl View for Op {
    type V = OpView;

    open spec fn view(&self) -> OpView {
        match *self {
            Op::AddTable { cf, meta } => OpView::AddTable { cf: cf@, meta: meta@ },
            Op::RemoveTable { cf, id, expected_level } => OpView::RemoveTable { cf: cf@, id, expected_level },
            Op::UpdateTable { cf, id, update } => OpView::UpdateTable { cf: cf@, id, update: update@ },
            Op::CreateCf { name, config } => OpView::CreateCf { name: name@, config: config@ },
            Op::DropCf { name } => OpView::DropCf { name: name@ },
            Op::SetCfConfig { name, config } => OpView::SetCfConfig { name: name@, config: config@ },
            Op::SetNextFileId(v) => OpView::SetNextFileId(v),
            Op::SetGlobalSeq(v) => OpView::SetGlobalSeq(v),
            Op::SetWalLayout(l) => OpView::SetWalLayout(l),
            Op::SetNonce(n) => OpView::SetNonce(n),
            Op::SetCapability(b) => OpView::SetCapability(b),
            Op::RemoveTables { cf, ids } => OpView::RemoveTables { cf: cf@, ids: ids@ },
        }
    }
}

pub open spec fn op_views(s: Seq<Op>) -> Seq<OpView> {
    s.map_values(|o: Op| o@)
}

/// Steps that take effect together or not at all.
#[derive(Debug, Clone, PartialEq, Eq)]
pub struct VersionEdit {
    pub ops: Vec<Op>,
}

impl View for VersionEdit {
    type V = Seq<OpView>;

    open spec fn view(&self) -> Seq<OpView> {
        op_views(self.ops@)
    }
}

impl Default for VersionEdit {
    fn default() -> (r: VersionEdit)
        ensures
            r@ == Seq::<OpView>::empty(),
    {
        let r = VersionEdit { ops: Vec::new() };
        assert(r@ =~= Seq::<OpView>::empty());
        r
    }
}

impl VersionEdit {
    /// An edit of the given steps.
    pub fn new(ops: Vec<Op>) -> (r: VersionEdit)
        ensures
            r@ == op_views(ops@),
    {
        VersionEdit { ops }
    }

    /// Add a step at the end.
    pub fn push(&mut self, op: Op)
        ensures
            final(self)@ == old(self)@.push(op@),
    {
        let ghost s0 = self.ops@;
        self.ops.push(op);
        assert(op_views(self.ops@) =~= op_views(s0).push(op@));
    }

    /// Whether the edit has no step.
    pub fn is_empty(&self) -> (r: bool)
        ensures
            r == (self@.len() == 0),
    {
        self.ops.is_empty()
    }
}

// ---------------------------------------------------------------------------
// What the bytes are
// ---------------------------------------------------------------------------

pub open spec fn bytes_wire(v: Seq<u8>) -> Seq<u8> {
    crate::encoding::uvarint_bytes(v.len()) + v
}

pub open spec fn string_wire(v: Seq<char>) -> Seq<u8> {
    bytes_wire(vstd::utf8::encode_utf8(v))
}

pub open spec fn opt_string_wire(v: Option<Seq<char>>) -> Seq<u8> {
    match v {
        None => seq![0u8],
        Some(s) => seq![1u8] + string_wire(s),
    }
}

pub open spec fn opt_bytes_wire(v: Option<Seq<u8>>) -> Seq<u8> {
    match v {
        None => seq![0u8],
        Some(s) => seq![1u8] + bytes_wire(s),
    }
}

pub open spec fn opt_varint_wire(v: Option<i64>) -> Seq<u8> {
    match v {
        None => seq![0u8],
        Some(x) => seq![1u8] + crate::encoding::varint_bytes(x as int),
    }
}

pub open spec fn sst_head_wire(m: SstMetaView) -> Seq<u8> {
    crate::encoding::uvarint_bytes(m.id as nat) + (crate::encoding::uvarint_bytes(m.level as nat) + (crate::encoding::uvarint_bytes(m.num_entries as nat) + (
    crate::encoding::uvarint_bytes(m.num_tombstones as nat) + (crate::encoding::uvarint_bytes(m.max_seq as nat) + (crate::encoding::uvarint_bytes(
        m.klog_size as nat,
    ) + (crate::encoding::uvarint_bytes(m.vlog_size as nat) + (bytes_wire(m.min_key) + bytes_wire(m.max_key))))))))
}

pub open spec fn sst_tail_wire(m: SstMetaView) -> Seq<u8> {
    opt_string_wire(m.partition) + (opt_string_wire(m.tier) + (opt_varint_wire(m.max_entry_time) + (
    opt_string_wire(m.object) + (opt_varint_wire(m.last_compaction_time) + (crate::encoding::uvarint_bytes(m.range_count as nat)
        + (crate::encoding::uvarint_bytes(m.range_min_seq as nat) + (crate::encoding::uvarint_bytes(m.range_max_seq as nat) + (opt_bytes_wire(
        m.range_min_key,
    ) + opt_bytes_wire(m.range_max_key)))))))))
}

pub open spec fn sst_wire(m: SstMetaView) -> Seq<u8> {
    sst_head_wire(m) + sst_tail_wire(m)
}

pub open spec fn if_level_wire(v: Option<u32>) -> Seq<u8> {
    match v { Some(x) => crate::encoding::uvarint_bytes(x as nat), None => Seq::empty() }
}

pub open spec fn if_string_wire(v: Option<Option<Seq<char>>>) -> Seq<u8> {
    match v { Some(x) => opt_string_wire(x), None => Seq::empty() }
}

pub open spec fn if_varint_wire(v: Option<Option<i64>>) -> Seq<u8> {
    match v { Some(x) => opt_varint_wire(x), None => Seq::empty() }
}

/// The fields that an update names, in ascending order of their mask bits.
pub open spec fn update_wire(u: UpdateView) -> Seq<u8> {
    if_level_wire(u.level) + (if_string_wire(u.tier) + (if_string_wire(u.object) + (if_string_wire(u.partition) + (
    if_varint_wire(u.max_entry_time) + if_varint_wire(u.last_compaction_time)))))
}

pub open spec fn ids_wire(ids: Seq<u64>) -> Seq<u8>
    decreases ids.len(),
{
    if ids.len() == 0 {
        Seq::empty()
    } else {
        crate::encoding::uvarint_bytes(ids[0] as nat) + ids_wire(ids.skip(1))
    }
}

/// One step as bytes: its code, then its fields.
pub open spec fn op_wire(op: OpView) -> Seq<u8> {
    match op {
        OpView::AddTable { cf, meta } => crate::encoding::uvarint_bytes(1) + (string_wire(cf) + sst_wire(meta)),
        OpView::RemoveTable { cf, id, expected_level } => crate::encoding::uvarint_bytes(2) + (string_wire(cf) + (crate::encoding::uvarint_bytes(
            id as nat,
        ) + crate::encoding::uvarint_bytes(expected_level as nat))),
        OpView::UpdateTable { cf, id, update } => crate::encoding::uvarint_bytes(3) + (string_wire(cf) + (crate::encoding::uvarint_bytes(id as nat)
            + (crate::encoding::uvarint_bytes(update_mask(update) as nat) + update_wire(update)))),
        OpView::CreateCf { name, config } => crate::encoding::uvarint_bytes(4) + (string_wire(name) + bytes_wire(config)),
        OpView::DropCf { name } => crate::encoding::uvarint_bytes(5) + string_wire(name),
        OpView::SetCfConfig { name, config } => crate::encoding::uvarint_bytes(6) + (string_wire(name) + bytes_wire(config)),
        OpView::SetNextFileId(v) => crate::encoding::uvarint_bytes(7) + crate::encoding::uvarint_bytes(v as nat),
        OpView::SetGlobalSeq(v) => crate::encoding::uvarint_bytes(8) + crate::encoding::uvarint_bytes(v as nat),
        OpView::SetWalLayout(l) => crate::encoding::uvarint_bytes(9) + seq![if l == WalLayout::Unified { 1u8 } else { 0u8 }],
        OpView::SetNonce(n) => crate::encoding::uvarint_bytes(10) + crate::encoding::le_bytes(n as nat, 8),
        OpView::SetCapability(b) => crate::encoding::uvarint_bytes(11) + crate::encoding::le_bytes(b as nat, 8),
        OpView::RemoveTables { cf, ids } => crate::encoding::uvarint_bytes(12) + (string_wire(cf) + (crate::encoding::uvarint_bytes(ids.len())
            + ids_wire(ids))),
    }
}

pub open spec fn ops_wire(ops: Seq<OpView>) -> Seq<u8>
    decreases ops.len(),
{
    if ops.len() == 0 {
        Seq::empty()
    } else {
        op_wire(ops[0]) + ops_wire(ops.skip(1))
    }
}

/// An edit as bytes: its number, how many steps, the steps.
pub open spec fn payload_wire(edit_id: u64, ops: Seq<OpView>) -> Seq<u8> {
    crate::encoding::le_bytes(edit_id as nat, 8) + (crate::encoding::uvarint_bytes(ops.len()) + ops_wire(ops))
}

// ---------------------------------------------------------------------------
// Which bytes are one
// ---------------------------------------------------------------------------

pub open spec fn parse_take(s: Seq<u8>, n: nat) -> Option<(Seq<u8>, Seq<u8>)> {
    if s.len() < n { None } else { Some((s.take(n as int), s.skip(n as int))) }
}

pub open spec fn parse_u64le(s: Seq<u8>) -> Option<(u64, Seq<u8>)> {
    if s.len() < 8 { None } else { Some((crate::encoding::le_value(s.take(8)) as u64, s.skip(8))) }
}

pub open spec fn parse_u32v(s: Seq<u8>) -> Option<(u32, Seq<u8>)> {
    match crate::encoding::parse_uvarint(s) {
        Some((v, r)) => if v <= u32::MAX { Some((v as u32, r)) } else { None },
        None => None,
    }
}

pub open spec fn parse_byte(s: Seq<u8>) -> Option<(u8, Seq<u8>)> {
    if s.len() == 0 { None } else { Some((s[0], s.skip(1))) }
}

pub open spec fn parse_bytes(s: Seq<u8>) -> Option<(Seq<u8>, Seq<u8>)> {
    match crate::encoding::parse_uvarint(s) {
        Some((n, r)) => parse_take(r, n as nat),
        None => None,
    }
}

pub open spec fn parse_string(s: Seq<u8>) -> Option<(Seq<char>, Seq<u8>)> {
    match parse_bytes(s) {
        Some((b, r)) => if vstd::utf8::valid_utf8(b) { Some((vstd::utf8::decode_utf8(b), r)) } else { None },
        None => None,
    }
}

pub open spec fn parse_opt_string(s: Seq<u8>) -> Option<(Option<Seq<char>>, Seq<u8>)> {
    match parse_byte(s) {
        Some((t, r)) => if t == 0 {
            Some((None, r))
        } else if t == 1 {
            match parse_string(r) {
                Some((x, r2)) => Some((Some(x), r2)),
                None => None,
            }
        } else {
            None
        },
        None => None,
    }
}

pub open spec fn parse_opt_bytes(s: Seq<u8>) -> Option<(Option<Seq<u8>>, Seq<u8>)> {
    match parse_byte(s) {
        Some((t, r)) => if t == 0 {
            Some((None, r))
        } else if t == 1 {
            match parse_bytes(r) {
                Some((x, r2)) => Some((Some(x), r2)),
                None => None,
            }
        } else {
            None
        },
        None => None,
    }
}

pub open spec fn parse_opt_varint(s: Seq<u8>) -> Option<(Option<i64>, Seq<u8>)> {
    match parse_byte(s) {
        Some((t, r)) => if t == 0 {
            Some((None, r))
        } else if t == 1 {
            match crate::encoding::parse_varint(r) {
                Some((x, r2)) => Some((Some(x), r2)),
                None => None,
            }
        } else {
            None
        },
        None => None,
    }
}

pub open spec fn parse_sst_head(s: Seq<u8>) -> Option<(SstMetaView, Seq<u8>)> {
    match crate::encoding::parse_uvarint(s) {
        None => None,
        Some((id, s)) => match parse_u32v(s) {
            None => None,
            Some((level, s)) => match crate::encoding::parse_uvarint(s) {
                None => None,
                Some((num_entries, s)) => match crate::encoding::parse_uvarint(s) {
                    None => None,
                    Some((num_tombstones, s)) => match crate::encoding::parse_uvarint(s) {
                        None => None,
                        Some((max_seq, s)) => match crate::encoding::parse_uvarint(s) {
                            None => None,
                            Some((klog_size, s)) => match crate::encoding::parse_uvarint(s) {
                                None => None,
                                Some((vlog_size, s)) => match parse_bytes(s) {
                                    None => None,
                                    Some((min_key, s)) => match parse_bytes(s) {
                                        None => None,
                                        Some((max_key, s)) => Some((SstMetaView {
                                            id, level, num_entries, num_tombstones, max_seq, klog_size, vlog_size,
                                            min_key, max_key, ..crate::manifest::blank_sst()
                                        }, s)),
                                    },
                                },
                            },
                        },
                    },
                },
            },
        },
    }
}

pub open spec fn parse_sst_tail(head: SstMetaView, s: Seq<u8>) -> Option<(SstMetaView, Seq<u8>)> {
    match parse_opt_string(s) {
        None => None,
        Some((partition, s)) => match parse_opt_string(s) {
            None => None,
            Some((tier, s)) => match parse_opt_varint(s) {
                None => None,
                Some((max_entry_time, s)) => match parse_opt_string(s) {
                    None => None,
                    Some((object, s)) => match parse_opt_varint(s) {
                        None => None,
                        Some((last_compaction_time, s)) => match crate::encoding::parse_uvarint(s) {
                            None => None,
                            Some((range_count, s)) => match crate::encoding::parse_uvarint(s) {
                                None => None,
                                Some((range_min_seq, s)) => match crate::encoding::parse_uvarint(s) {
                                    None => None,
                                    Some((range_max_seq, s)) => match parse_opt_bytes(s) {
                                        None => None,
                                        Some((range_min_key, s)) => match parse_opt_bytes(s) {
                                            None => None,
                                            Some((range_max_key, s)) => Some((SstMetaView {
                                                partition, tier, max_entry_time, object, last_compaction_time,
                                                range_count, range_min_seq, range_max_seq, range_min_key,
                                                range_max_key, ..head
                                            }, s)),
                                        },
                                    },
                                },
                            },
                        },
                    },
                },
            },
        },
    }
}

pub open spec fn parse_sst(s: Seq<u8>) -> Option<(SstMetaView, Seq<u8>)> {
    match parse_sst_head(s) {
        None => None,
        Some((head, s)) => parse_sst_tail(head, s),
    }
}

/// Whether the mask `m` holds the bit of weight `w`.
pub open spec fn mask_has(m: u64, w: u64) -> bool {
    (m / w) % 2 == 1
}

pub open spec fn parse_if_level(c: bool, s: Seq<u8>) -> Option<(Option<u32>, Seq<u8>)> {
    if c {
        match parse_u32v(s) { Some((x, r)) => Some((Some(x), r)), None => None }
    } else {
        Some((None, s))
    }
}

pub open spec fn parse_if_string(c: bool, s: Seq<u8>) -> Option<(Option<Option<Seq<char>>>, Seq<u8>)> {
    if c {
        match parse_opt_string(s) { Some((x, r)) => Some((Some(x), r)), None => None }
    } else {
        Some((None, s))
    }
}

pub open spec fn parse_if_varint(c: bool, s: Seq<u8>) -> Option<(Option<Option<i64>>, Seq<u8>)> {
    if c {
        match parse_opt_varint(s) { Some((x, r)) => Some((Some(x), r)), None => None }
    } else {
        Some((None, s))
    }
}

pub open spec fn parse_update(m: u64, s: Seq<u8>) -> Option<(UpdateView, Seq<u8>)> {
    match parse_if_level(mask_has(m, 1), s) {
        None => None,
        Some((level, s)) => match parse_if_string(mask_has(m, 2), s) {
            None => None,
            Some((tier, s)) => match parse_if_string(mask_has(m, 4), s) {
                None => None,
                Some((object, s)) => match parse_if_string(mask_has(m, 8), s) {
                    None => None,
                    Some((partition, s)) => match parse_if_varint(mask_has(m, 16), s) {
                        None => None,
                        Some((max_entry_time, s)) => match parse_if_varint(mask_has(m, 32), s) {
                            None => None,
                            Some((last_compaction_time, s)) => Some((UpdateView {
                                level, tier, object, partition, max_entry_time, last_compaction_time,
                            }, s)),
                        },
                    },
                },
            },
        },
    }
}

pub open spec fn parse_ids(s: Seq<u8>, n: nat) -> Option<(Seq<u64>, Seq<u8>)>
    decreases n,
{
    if n == 0 {
        Some((Seq::empty(), s))
    } else {
        match crate::encoding::parse_uvarint(s) {
            None => None,
            Some((v, s)) => match parse_ids(s, (n - 1) as nat) {
                None => None,
                Some((vs, s)) => Some((seq![v] + vs, s)),
            },
        }
    }
}

/// The fields of a step with the code `code`.
pub open spec fn parse_op_body(code: u64, s: Seq<u8>) -> Option<(OpView, Seq<u8>)> {
    if code == 1 {
        match parse_string(s) {
            None => None,
            Some((cf, s)) => match parse_sst(s) {
                None => None,
                Some((meta, s)) => Some((OpView::AddTable { cf, meta }, s)),
            },
        }
    } else if code == 2 {
        match parse_string(s) {
            None => None,
            Some((cf, s)) => match crate::encoding::parse_uvarint(s) {
                None => None,
                Some((id, s)) => match parse_u32v(s) {
                    None => None,
                    Some((expected_level, s)) => Some((OpView::RemoveTable { cf, id, expected_level }, s)),
                },
            },
        }
    } else if code == 3 {
        match parse_string(s) {
            None => None,
            Some((cf, s)) => match crate::encoding::parse_uvarint(s) {
                None => None,
                Some((id, s)) => match crate::encoding::parse_uvarint(s) {
                    None => None,
                    Some((m, s)) => if m == 0 || m > 63 {
                        None
                    } else {
                        match parse_update(m, s) {
                            None => None,
                            Some((update, s)) => Some((OpView::UpdateTable { cf, id, update }, s)),
                        }
                    },
                },
            },
        }
    } else if code == 4 || code == 6 {
        match parse_string(s) {
            None => None,
            Some((name, s)) => match parse_bytes(s) {
                None => None,
                Some((config, s)) => if code == 4 {
                    Some((OpView::CreateCf { name, config }, s))
                } else {
                    Some((OpView::SetCfConfig { name, config }, s))
                },
            },
        }
    } else if code == 5 {
        match parse_string(s) {
            None => None,
            Some((name, s)) => Some((OpView::DropCf { name }, s)),
        }
    } else if code == 7 || code == 8 {
        match crate::encoding::parse_uvarint(s) {
            None => None,
            Some((v, s)) => if code == 7 {
                Some((OpView::SetNextFileId(v), s))
            } else {
                Some((OpView::SetGlobalSeq(v), s))
            },
        }
    } else if code == 9 {
        match parse_byte(s) {
            None => None,
            Some((b, s)) => if b == 0 {
                Some((OpView::SetWalLayout(WalLayout::PerColumnFamily), s))
            } else if b == 1 {
                Some((OpView::SetWalLayout(WalLayout::Unified), s))
            } else {
                None
            },
        }
    } else if code == 10 || code == 11 {
        match parse_u64le(s) {
            None => None,
            Some((v, s)) => if code == 10 {
                Some((OpView::SetNonce(v), s))
            } else {
                Some((OpView::SetCapability(v), s))
            },
        }
    } else if code == 12 {
        match parse_string(s) {
            None => None,
            Some((cf, s)) => match crate::encoding::parse_uvarint(s) {
                None => None,
                Some((n, s)) => match parse_ids(s, n as nat) {
                    None => None,
                    Some((ids, s)) => Some((OpView::RemoveTables { cf, ids }, s)),
                },
            },
        }
    } else {
        None
    }
}

pub open spec fn parse_op(s: Seq<u8>) -> Option<(OpView, Seq<u8>)> {
    match crate::encoding::parse_uvarint(s) {
        None => None,
        Some((code, s)) => parse_op_body(code, s),
    }
}

pub open spec fn parse_ops(s: Seq<u8>, n: nat) -> Option<(Seq<OpView>, Seq<u8>)>
    decreases n,
{
    if n == 0 {
        Some((Seq::empty(), s))
    } else {
        match parse_op(s) {
            None => None,
            Some((v, s)) => match parse_ops(s, (n - 1) as nat) {
                None => None,
                Some((vs, s)) => Some((seq![v] + vs, s)),
            },
        }
    }
}

/// How many of `n` steps can be read before one that cannot.
pub open spec fn readable_ops(s: Seq<u8>, n: nat) -> nat
    decreases n,
{
    if n == 0 {
        0
    } else {
        match parse_op(s) {
            None => 0,
            Some((_, s)) => 1 + readable_ops(s, (n - 1) as nat),
        }
    }
}

/// Whether the first of some steps that cannot be read starts with a name that
/// is not UTF-8.
pub open spec fn stops_at_name(s: Seq<u8>, n: nat) -> bool
    decreases n,
{
    n > 0 && (match parse_op(s) {
        None => has_bad_name(s),
        Some((_, s)) => stops_at_name(s, (n - 1) as nat),
    })
}

/// Whether a step starts with a name that is not UTF-8.
pub open spec fn has_bad_name(s: Seq<u8>) -> bool {
    crate::encoding::parse_uvarint(s) matches Some((code, s)) && (1 <= code <= 6 || code == 12) && is_bad_name(s)
}

/// Whether a name comes that is not UTF-8.
pub open spec fn is_bad_name(s: Seq<u8>) -> bool {
    parse_bytes(s) matches Some((name, _)) && !vstd::utf8::valid_utf8(name)
}

/// What an error says first that is about step `n` of an edit.
pub open spec fn step_text(n: nat) -> Seq<char> {
    "manifest edit: op index "@ + crate::text::decimal_text(n) + ": "@
}

/// Whether an error blames step `n` of an edit.
pub open spec fn blames_step(e: OndaError, n: nat) -> bool {
    e is Corruption && step_text(n).is_prefix_of(e.message_text())
}

/// An error that blames a step of an edit.
pub fn step_error(n: u64, what: &str) -> (r: OndaError)
    ensures
        blames_step(r, n as nat),
        r.message_text() == step_text(n as nat) + what@,
{
    let front = with_number("manifest edit: op index ", n, ": ");
    let r = OndaError::Corruption(join3(front.as_str(), what, ""));
    proof {
        reveal_strlit("");
        assert(r.message_text() =~= step_text(n as nat) + what@);
        assert((step_text(n as nat) + what@).subrange(0, step_text(n as nat).len() as int) =~= step_text(n as nat));
    }
    r
}

/// An error that blames a step names its number, and no other.
pub proof fn lemma_step_is_named(e: OndaError, n: nat, m: nat)
    requires
        blames_step(e, n),
    ensures
        crate::text::holds_text(e.message_text(), "op index "@ + crate::text::decimal_text(n)),
        blames_step(e, m) ==> m == n,
{
    reveal_strlit("manifest edit: op index ");
    reveal_strlit("op index ");
    reveal_strlit(": ");
    let s = e.message_text();
    let d = crate::text::decimal_text(n);
    let t = step_text(n);
    let dl = d.len() as int;
    let k = 9 + dl;
    assert(s.subrange(0, t.len() as int) =~= t);
    assert forall|i: int| 0 <= i < t.len() implies #[trigger] s[i] == t[i] by {
        assert(s.subrange(0, t.len() as int)[i] == s[i]);
    }
    assert(s.subrange(15, 15 + k) =~= "op index "@ + d);
    assert(crate::text::holds_text(s, "op index "@ + d));
    if blames_step(e, m) {
        let f = crate::text::decimal_text(m);
        let fl = f.len() as int;
        let u = step_text(m);
        assert(s.subrange(0, u.len() as int) =~= u);
        assert forall|i: int| 0 <= i < u.len() implies #[trigger] s[i] == u[i] by {
            assert(s.subrange(0, u.len() as int)[i] == s[i]);
        }
        crate::text::lemma_decimal_is_faithful(n, m);
        crate::text::lemma_decimal_is_faithful(m, n);
        assert(t[24 + dl] == ':');
        assert(u[24 + fl] == ':');
        if dl < fl {
            assert(u[24 + dl] == f[dl]);
            assert(s[24 + dl] == ':');
        } else if fl < dl {
            assert(t[24 + fl] == d[fl]);
            assert(s[24 + fl] == ':');
        } else {
            assert forall|i: int| 0 <= i < d.len() implies d[i] == f[i] by {
                assert(t[24 + i] == d[i] && u[24 + i] == f[i]);
                assert(s[24 + i] == t[24 + i]);
            }
            assert(d =~= f);
        }
    }
}

/// What an error says of bytes that are no edit: the step that could not be
/// read, or step 0 where not even their number could; and that it was a name
/// that is not UTF-8, where it was.
pub open spec fn explains_payload(e: OndaError, s: Seq<u8>) -> bool {
    &&& e is Corruption
    &&& match parse_u64le(s) {
        None => blames_step(e, 0),
        Some((edit_id, s)) => match crate::encoding::parse_uvarint(s) {
            None => blames_step(e, 0),
            Some((n, s)) => parse_ops(s, n as nat) is None ==> {
                &&& blames_step(e, readable_ops(s, n as nat))
                &&& stops_at_name(s, n as nat) ==> crate::text::holds_text(e.message_text(), "UTF-8"@)
            },
        },
    }
}

/// An edit's number and steps, if `s` is exactly one edit.
pub open spec fn parse_payload(s: Seq<u8>) -> Option<(u64, Seq<OpView>)> {
    match parse_u64le(s) {
        None => None,
        Some((edit_id, s)) => match crate::encoding::parse_uvarint(s) {
            None => None,
            Some((n, s)) => match parse_ops(s, n as nat) {
                None => None,
                Some((ops, s)) => if s.len() == 0 { Some((edit_id, ops)) } else { None },
            },
        },
    }
}

/// The mask of an update has one bit for each field that it names, and tells
/// which: no two updates that name different fields have the same.
pub proof fn lemma_mask_tells_the_named_fields(u: UpdateView, w: UpdateView)
    ensures
        0 <= update_mask(u) < 64,
        update_mask(u) == update_mask(w) <==> {
            &&& u.level is Some == w.level is Some
            &&& u.tier is Some == w.tier is Some
            &&& u.object is Some == w.object is Some
            &&& u.partition is Some == w.partition is Some
            &&& u.max_entry_time is Some == w.max_entry_time is Some
            &&& u.last_compaction_time is Some == w.last_compaction_time is Some
        },
        update_mask(no_update()) == 0,
        update_mask(u) == 0 ==> u == no_update(),
{
}

/// An update that names nothing changes nothing.
pub proof fn lemma_no_update_changes_nothing(s: SstMetaView)
    ensures
        updated(no_update(), s) == s,
{
}

} // verus!
