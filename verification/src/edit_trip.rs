//! Edits survive the wire: what is written is what is read.

use vstd::prelude::*;

use crate::edit_codec::{OpView, UpdateView};
use crate::manifest::{SstMetaView, WalLayout};

verus! {

/// Whether the sizes of a table's keys and names fit the wire's 64 bits.
pub open spec fn sst_fits(m: SstMetaView) -> bool {
    &&& m.min_key.len() <= u64::MAX
    &&& m.max_key.len() <= u64::MAX
    &&& opt_text_fits(m.partition)
    &&& opt_text_fits(m.tier)
    &&& opt_text_fits(m.object)
    &&& (m.range_min_key is Some ==> m.range_min_key->0.len() <= u64::MAX)
    &&& (m.range_max_key is Some ==> m.range_max_key->0.len() <= u64::MAX)
}

pub open spec fn text_fits(s: Seq<char>) -> bool {
    vstd::utf8::encode_utf8(s).len() <= u64::MAX
}

pub open spec fn opt_text_fits(s: Option<Seq<char>>) -> bool {
    s is Some ==> text_fits(s->0)
}

/// Whether the sizes in a step fit the wire's 64 bits.
pub open spec fn op_fits(op: OpView) -> bool {
    match op {
        OpView::AddTable { cf, meta } => text_fits(cf) && sst_fits(meta),
        OpView::RemoveTable { cf, .. } => text_fits(cf),
        OpView::UpdateTable { cf, update, .. } => text_fits(cf) && (update.tier is Some ==> opt_text_fits(
            update.tier->0,
        )) && (update.object is Some ==> opt_text_fits(update.object->0)) && (update.partition is Some
            ==> opt_text_fits(update.partition->0)),
        OpView::CreateCf { name, config } => text_fits(name) && config.len() <= u64::MAX,
        OpView::DropCf { name } => text_fits(name),
        OpView::SetCfConfig { name, config } => text_fits(name) && config.len() <= u64::MAX,
        OpView::RemoveTables { cf, ids } => text_fits(cf) && ids.len() <= u64::MAX,
        _ => true,
    }
}

/// Whether an edit can be written and read back: sizes fit, and no update
/// names no field.
pub open spec fn edit_fits(ops: Seq<OpView>) -> bool {
    &&& ops.len() <= u64::MAX
    &&& forall|i: int| 0 <= i < ops.len() ==> op_fits(#[trigger] ops[i])
    &&& forall|i: int| 0 <= i < ops.len() ==> !empty_update(#[trigger] ops[i])
}

/// Whether a step is an update of no field.
pub open spec fn empty_update(op: OpView) -> bool {
    op is UpdateTable && crate::edit_codec::update_mask(op->UpdateTable_update) == 0
}

pub broadcast proof fn lemma_bytes_trip(v: Seq<u8>, rest: Seq<u8>)
    requires
        v.len() <= u64::MAX,
    ensures
        #[trigger] crate::edit_codec::parse_bytes(crate::edit_codec::bytes_wire(v) + rest) == Some((v, rest)),
{
    broadcast use crate::encoding::lemma_cat_assoc;

    crate::encoding::lemma_uvarint_round_trip(v.len() as u64, v + rest);
    assert((v + rest).take(v.len() as int) =~= v);
    assert((v + rest).skip(v.len() as int) =~= rest);
}

broadcast proof fn lemma_string_trip(v: Seq<char>, rest: Seq<u8>)
    requires
        text_fits(v),
    ensures
        #[trigger] crate::edit_codec::parse_string(crate::edit_codec::string_wire(v) + rest) == Some((v, rest)),
{
    lemma_bytes_trip(vstd::utf8::encode_utf8(v), rest);
    vstd::utf8::encode_utf8_valid_utf8(v);
    vstd::utf8::encode_utf8_decode_utf8(v);
}

broadcast proof fn lemma_byte_trip(b: u8, rest: Seq<u8>)
    ensures
        #[trigger] crate::edit_codec::parse_byte(seq![b] + rest) == Some((b, rest)),
{
    assert((seq![b] + rest).skip(1) =~= rest);
}

broadcast proof fn lemma_u64le_trip(v: u64, rest: Seq<u8>)
    ensures
        #[trigger] crate::edit_codec::parse_u64le(crate::encoding::le_bytes(v as nat, 8) + rest) == Some((v, rest)),
{
    crate::encoding::lemma_pow256();
    crate::encoding::lemma_le_round_trip(v as nat, 8);
    let s = crate::encoding::le_bytes(v as nat, 8) + rest;
    assert(s.take(8) =~= crate::encoding::le_bytes(v as nat, 8));
    assert(s.skip(8) =~= rest);
}

broadcast proof fn lemma_u32v_trip(v: u32, rest: Seq<u8>)
    ensures
        #[trigger] crate::edit_codec::parse_u32v(crate::encoding::uvarint_bytes(v as nat) + rest) == Some((v, rest)),
{
    crate::encoding::lemma_uvarint_round_trip(v as u64, rest);
}

broadcast proof fn lemma_opt_string_trip(v: Option<Seq<char>>, rest: Seq<u8>)
    requires
        opt_text_fits(v),
    ensures
        #[trigger] crate::edit_codec::parse_opt_string(crate::edit_codec::opt_string_wire(v) + rest) == Some((v, rest)),
{
    broadcast use {crate::encoding::lemma_cat_assoc, lemma_byte_trip, lemma_string_trip};

    match v {
        None => {},
        Some(s) => {
            assert(crate::edit_codec::opt_string_wire(v) + rest == seq![1u8] + (crate::edit_codec::string_wire(s) + rest));
        },
    }
}

broadcast proof fn lemma_opt_bytes_trip(v: Option<Seq<u8>>, rest: Seq<u8>)
    requires
        v is Some ==> v->0.len() <= u64::MAX,
    ensures
        #[trigger] crate::edit_codec::parse_opt_bytes(crate::edit_codec::opt_bytes_wire(v) + rest) == Some((v, rest)),
{
    broadcast use {crate::encoding::lemma_cat_assoc, lemma_byte_trip, lemma_bytes_trip};

    match v {
        None => {},
        Some(s) => {
            assert(crate::edit_codec::opt_bytes_wire(v) + rest == seq![1u8] + (crate::edit_codec::bytes_wire(s) + rest));
        },
    }
}

broadcast proof fn lemma_opt_varint_trip(v: Option<i64>, rest: Seq<u8>)
    ensures
        #[trigger] crate::edit_codec::parse_opt_varint(crate::edit_codec::opt_varint_wire(v) + rest) == Some((v, rest)),
{
    broadcast use {crate::encoding::lemma_cat_assoc, lemma_byte_trip, crate::encoding::lemma_varint_round_trip};

    match v {
        None => {},
        Some(x) => {
            assert(crate::edit_codec::opt_varint_wire(v) + rest == seq![1u8] + (crate::encoding::varint_bytes(x as int) + rest));
        },
    }
}

broadcast group group_field_trips {
    crate::encoding::lemma_cat_assoc,
    crate::encoding::lemma_uvarint_round_trip,
    lemma_u32v_trip,
    lemma_bytes_trip,
    lemma_string_trip,
    lemma_byte_trip,
    lemma_u64le_trip,
    lemma_opt_string_trip,
    lemma_opt_bytes_trip,
    lemma_opt_varint_trip,
}

proof fn lemma_sst_head_trip(m: SstMetaView, rest: Seq<u8>)
    requires
        sst_fits(m),
    ensures
        crate::edit_codec::parse_sst_head(crate::edit_codec::sst_head_wire(m) + rest) == Some((SstMetaView {
            id: m.id,
            level: m.level,
            num_entries: m.num_entries,
            num_tombstones: m.num_tombstones,
            max_seq: m.max_seq,
            klog_size: m.klog_size,
            vlog_size: m.vlog_size,
            min_key: m.min_key,
            max_key: m.max_key,
            ..crate::manifest::blank_sst()
        }, rest)),
{
    let w1 = crate::encoding::uvarint_bytes(m.id as nat);
    let w2 = crate::encoding::uvarint_bytes(m.level as nat);
    let w3 = crate::encoding::uvarint_bytes(m.num_entries as nat);
    let w4 = crate::encoding::uvarint_bytes(m.num_tombstones as nat);
    let w5 = crate::encoding::uvarint_bytes(m.max_seq as nat);
    let w6 = crate::encoding::uvarint_bytes(m.klog_size as nat);
    let w7 = crate::encoding::uvarint_bytes(m.vlog_size as nat);
    let w8 = crate::edit_codec::bytes_wire(m.min_key);
    let w9 = crate::edit_codec::bytes_wire(m.max_key);
    crate::encoding::lemma_cat_assoc(w1, w2 + (w3 + (w4 + (w5 + (w6 + (w7 + (w8 + w9)))))), rest);
    crate::encoding::lemma_cat_assoc(w2, w3 + (w4 + (w5 + (w6 + (w7 + (w8 + w9))))), rest);
    crate::encoding::lemma_cat_assoc(w3, w4 + (w5 + (w6 + (w7 + (w8 + w9)))), rest);
    crate::encoding::lemma_cat_assoc(w4, w5 + (w6 + (w7 + (w8 + w9))), rest);
    crate::encoding::lemma_cat_assoc(w5, w6 + (w7 + (w8 + w9)), rest);
    crate::encoding::lemma_cat_assoc(w6, w7 + (w8 + w9), rest);
    crate::encoding::lemma_cat_assoc(w7, w8 + w9, rest);
    crate::encoding::lemma_cat_assoc(w8, w9, rest);
    let r9 = w9 + rest;
    let r8 = w8 + r9;
    let r7 = w7 + r8;
    let r6 = w6 + r7;
    let r5 = w5 + r6;
    let r4 = w4 + r5;
    let r3 = w3 + r4;
    let r2 = w2 + r3;
    crate::encoding::lemma_uvarint_round_trip(m.id, r2);
    lemma_u32v_trip(m.level, r3);
    crate::encoding::lemma_uvarint_round_trip(m.num_entries, r4);
    crate::encoding::lemma_uvarint_round_trip(m.num_tombstones, r5);
    crate::encoding::lemma_uvarint_round_trip(m.max_seq, r6);
    crate::encoding::lemma_uvarint_round_trip(m.klog_size, r7);
    crate::encoding::lemma_uvarint_round_trip(m.vlog_size, r8);
    lemma_bytes_trip(m.min_key, r9);
    lemma_bytes_trip(m.max_key, rest);
}

proof fn lemma_sst_tail_trip(head: SstMetaView, m: SstMetaView, rest: Seq<u8>)
    requires
        sst_fits(m),
    ensures
        crate::edit_codec::parse_sst_tail(head, crate::edit_codec::sst_tail_wire(m) + rest) == Some((SstMetaView {
            partition: m.partition,
            tier: m.tier,
            max_entry_time: m.max_entry_time,
            object: m.object,
            last_compaction_time: m.last_compaction_time,
            range_count: m.range_count,
            range_min_seq: m.range_min_seq,
            range_max_seq: m.range_max_seq,
            range_min_key: m.range_min_key,
            range_max_key: m.range_max_key,
            ..head
        }, rest)),
{
    let w1 = crate::edit_codec::opt_string_wire(m.partition);
    let w2 = crate::edit_codec::opt_string_wire(m.tier);
    let w3 = crate::edit_codec::opt_varint_wire(m.max_entry_time);
    let w4 = crate::edit_codec::opt_string_wire(m.object);
    let w5 = crate::edit_codec::opt_varint_wire(m.last_compaction_time);
    let w6 = crate::encoding::uvarint_bytes(m.range_count as nat);
    let w7 = crate::encoding::uvarint_bytes(m.range_min_seq as nat);
    let w8 = crate::encoding::uvarint_bytes(m.range_max_seq as nat);
    let w9 = crate::edit_codec::opt_bytes_wire(m.range_min_key);
    let w10 = crate::edit_codec::opt_bytes_wire(m.range_max_key);
    crate::encoding::lemma_cat_assoc(w1, w2 + (w3 + (w4 + (w5 + (w6 + (w7 + (w8 + (w9 + w10))))))), rest);
    crate::encoding::lemma_cat_assoc(w2, w3 + (w4 + (w5 + (w6 + (w7 + (w8 + (w9 + w10)))))), rest);
    crate::encoding::lemma_cat_assoc(w3, w4 + (w5 + (w6 + (w7 + (w8 + (w9 + w10))))), rest);
    crate::encoding::lemma_cat_assoc(w4, w5 + (w6 + (w7 + (w8 + (w9 + w10)))), rest);
    crate::encoding::lemma_cat_assoc(w5, w6 + (w7 + (w8 + (w9 + w10))), rest);
    crate::encoding::lemma_cat_assoc(w6, w7 + (w8 + (w9 + w10)), rest);
    crate::encoding::lemma_cat_assoc(w7, w8 + (w9 + w10), rest);
    crate::encoding::lemma_cat_assoc(w8, w9 + w10, rest);
    crate::encoding::lemma_cat_assoc(w9, w10, rest);
    let r10 = w10 + rest;
    let r9 = w9 + r10;
    let r8 = w8 + r9;
    let r7 = w7 + r8;
    let r6 = w6 + r7;
    let r5 = w5 + r6;
    let r4 = w4 + r5;
    let r3 = w3 + r4;
    let r2 = w2 + r3;
    lemma_opt_string_trip(m.partition, r2);
    lemma_opt_string_trip(m.tier, r3);
    lemma_opt_varint_trip(m.max_entry_time, r4);
    lemma_opt_string_trip(m.object, r5);
    lemma_opt_varint_trip(m.last_compaction_time, r6);
    crate::encoding::lemma_uvarint_round_trip(m.range_count, r7);
    crate::encoding::lemma_uvarint_round_trip(m.range_min_seq, r8);
    crate::encoding::lemma_uvarint_round_trip(m.range_max_seq, r9);
    lemma_opt_bytes_trip(m.range_min_key, r10);
    lemma_opt_bytes_trip(m.range_max_key, rest);
}

proof fn lemma_sst_trip(m: SstMetaView, rest: Seq<u8>)
    requires
        sst_fits(m),
    ensures
        crate::edit_codec::parse_sst(crate::edit_codec::sst_wire(m) + rest) == Some((m, rest)),
{
    let head = SstMetaView {
        id: m.id,
        level: m.level,
        num_entries: m.num_entries,
        num_tombstones: m.num_tombstones,
        max_seq: m.max_seq,
        klog_size: m.klog_size,
        vlog_size: m.vlog_size,
        min_key: m.min_key,
        max_key: m.max_key,
        ..crate::manifest::blank_sst()
    };
    crate::encoding::lemma_cat_assoc(crate::edit_codec::sst_head_wire(m), crate::edit_codec::sst_tail_wire(m), rest);
    lemma_sst_head_trip(m, crate::edit_codec::sst_tail_wire(m) + rest);
    lemma_sst_tail_trip(head, m, rest);
}

proof fn lemma_if_level_trip(v: Option<u32>, rest: Seq<u8>)
    ensures
        crate::edit_codec::parse_if_level(v is Some, crate::edit_codec::if_level_wire(v) + rest) == Some((v, rest)),
{
    crate::encoding::lemma_cat_empty(rest);
    if v is Some {
        lemma_u32v_trip(v->0, rest);
    }
}

proof fn lemma_if_string_trip(v: Option<Option<Seq<char>>>, rest: Seq<u8>)
    requires
        v is Some ==> opt_text_fits(v->0),
    ensures
        crate::edit_codec::parse_if_string(v is Some, crate::edit_codec::if_string_wire(v) + rest) == Some((v, rest)),
{
    crate::encoding::lemma_cat_empty(rest);
    if v is Some {
        lemma_opt_string_trip(v->0, rest);
    }
}

proof fn lemma_if_varint_trip(v: Option<Option<i64>>, rest: Seq<u8>)
    ensures
        crate::edit_codec::parse_if_varint(v is Some, crate::edit_codec::if_varint_wire(v) + rest) == Some((v, rest)),
{
    crate::encoding::lemma_cat_empty(rest);
    if v is Some {
        lemma_opt_varint_trip(v->0, rest);
    }
}

proof fn lemma_mask_bits(u: UpdateView)
    ensures
        crate::edit_codec::update_mask(u) <= 63,
        crate::edit_codec::mask_has(crate::edit_codec::update_mask(u) as u64, 1) <==> u.level is Some,
        crate::edit_codec::mask_has(crate::edit_codec::update_mask(u) as u64, 2) <==> u.tier is Some,
        crate::edit_codec::mask_has(crate::edit_codec::update_mask(u) as u64, 4) <==> u.object is Some,
        crate::edit_codec::mask_has(crate::edit_codec::update_mask(u) as u64, 8) <==> u.partition is Some,
        crate::edit_codec::mask_has(crate::edit_codec::update_mask(u) as u64, 16) <==> u.max_entry_time is Some,
        crate::edit_codec::mask_has(crate::edit_codec::update_mask(u) as u64, 32) <==> u.last_compaction_time is Some,
{
}

proof fn lemma_update_trip(u: UpdateView, rest: Seq<u8>)
    requires
        u.tier is Some ==> opt_text_fits(u.tier->0),
        u.object is Some ==> opt_text_fits(u.object->0),
        u.partition is Some ==> opt_text_fits(u.partition->0),
    ensures
        crate::edit_codec::parse_update(crate::edit_codec::update_mask(u) as u64, crate::edit_codec::update_wire(u) + rest) == Some((u, rest)),
{
    lemma_mask_bits(u);
    let w1 = crate::edit_codec::if_level_wire(u.level);
    let w2 = crate::edit_codec::if_string_wire(u.tier);
    let w3 = crate::edit_codec::if_string_wire(u.object);
    let w4 = crate::edit_codec::if_string_wire(u.partition);
    let w5 = crate::edit_codec::if_varint_wire(u.max_entry_time);
    let w6 = crate::edit_codec::if_varint_wire(u.last_compaction_time);
    crate::encoding::lemma_cat_assoc(w1, w2 + (w3 + (w4 + (w5 + w6))), rest);
    crate::encoding::lemma_cat_assoc(w2, w3 + (w4 + (w5 + w6)), rest);
    crate::encoding::lemma_cat_assoc(w3, w4 + (w5 + w6), rest);
    crate::encoding::lemma_cat_assoc(w4, w5 + w6, rest);
    crate::encoding::lemma_cat_assoc(w5, w6, rest);
    let r6 = w6 + rest;
    let r5 = w5 + r6;
    let r4 = w4 + r5;
    let r3 = w3 + r4;
    let r2 = w2 + r3;
    lemma_if_level_trip(u.level, r2);
    lemma_if_string_trip(u.tier, r3);
    lemma_if_string_trip(u.object, r4);
    lemma_if_string_trip(u.partition, r5);
    lemma_if_varint_trip(u.max_entry_time, r6);
    lemma_if_varint_trip(u.last_compaction_time, rest);
}

pub proof fn lemma_ids_trip(ids: Seq<u64>, rest: Seq<u8>)
    ensures
        crate::edit_codec::parse_ids(crate::edit_codec::ids_wire(ids) + rest, ids.len()) == Some((ids, rest)),
    decreases ids.len(),
{
    broadcast use group_field_trips;

    if ids.len() == 0 {
        crate::encoding::lemma_cat_empty(rest);
        assert(ids =~= Seq::empty());
    } else {
        lemma_ids_trip(ids.skip(1), rest);
        assert(crate::edit_codec::ids_wire(ids) + rest == crate::encoding::uvarint_bytes(ids[0] as nat) + (crate::edit_codec::ids_wire(ids.skip(1)) + rest));
        assert(ids =~= seq![ids[0]] + ids.skip(1));
    }
}

/// A step written to the wire is read back, with what follows it untouched.
pub proof fn lemma_op_round_trip(op: OpView, rest: Seq<u8>)
    requires
        op_fits(op),
        !empty_update(op),
    ensures
        crate::edit_codec::parse_op(crate::edit_codec::op_wire(op) + rest) == Some((op, rest)),
{
    broadcast use group_field_trips;

    match op {
        OpView::AddTable { cf, meta } => {
            lemma_sst_trip(meta, rest);
            assert(crate::edit_codec::op_wire(op) + rest == crate::encoding::uvarint_bytes(1u64 as nat) + (crate::edit_codec::string_wire(cf) + (crate::edit_codec::sst_wire(meta) + rest)));
        },
        OpView::RemoveTable { cf, id, expected_level } => {
            assert(crate::edit_codec::op_wire(op) + rest == crate::encoding::uvarint_bytes(2u64 as nat) + (crate::edit_codec::string_wire(cf) + (crate::encoding::uvarint_bytes(id as nat)
                + (crate::encoding::uvarint_bytes(expected_level as nat) + rest))));
        },
        OpView::UpdateTable { cf, id, update } => {
            lemma_update_trip(update, rest);
            let m = crate::edit_codec::update_mask(update) as u64;
            assert(crate::edit_codec::op_wire(op) + rest == crate::encoding::uvarint_bytes(3u64 as nat) + (crate::edit_codec::string_wire(cf) + (crate::encoding::uvarint_bytes(id as nat)
                + (crate::encoding::uvarint_bytes(m as nat) + (crate::edit_codec::update_wire(update) + rest)))));
        },
        OpView::CreateCf { name, config } => {
            assert(crate::edit_codec::op_wire(op) + rest == crate::encoding::uvarint_bytes(4u64 as nat) + (crate::edit_codec::string_wire(name) + (crate::edit_codec::bytes_wire(config)
                + rest)));
        },
        OpView::DropCf { name } => {
            assert(crate::edit_codec::op_wire(op) + rest == crate::encoding::uvarint_bytes(5u64 as nat) + (crate::edit_codec::string_wire(name) + rest));
        },
        OpView::SetCfConfig { name, config } => {
            assert(crate::edit_codec::op_wire(op) + rest == crate::encoding::uvarint_bytes(6u64 as nat) + (crate::edit_codec::string_wire(name) + (crate::edit_codec::bytes_wire(config)
                + rest)));
        },
        OpView::SetNextFileId(v) => {
            assert(crate::edit_codec::op_wire(op) + rest == crate::encoding::uvarint_bytes(7u64 as nat) + (crate::encoding::uvarint_bytes(v as nat) + rest));
        },
        OpView::SetGlobalSeq(v) => {
            assert(crate::edit_codec::op_wire(op) + rest == crate::encoding::uvarint_bytes(8u64 as nat) + (crate::encoding::uvarint_bytes(v as nat) + rest));
        },
        OpView::SetWalLayout(l) => {
            let b = if l == WalLayout::Unified { 1u8 } else { 0u8 };
            assert(crate::edit_codec::op_wire(op) + rest == crate::encoding::uvarint_bytes(9u64 as nat) + (seq![b] + rest));
        },
        OpView::SetNonce(v) => {
            assert(crate::edit_codec::op_wire(op) + rest == crate::encoding::uvarint_bytes(10u64 as nat) + (crate::encoding::le_bytes(v as nat, 8) + rest));
        },
        OpView::SetCapability(v) => {
            assert(crate::edit_codec::op_wire(op) + rest == crate::encoding::uvarint_bytes(11u64 as nat) + (crate::encoding::le_bytes(v as nat, 8) + rest));
        },
        OpView::RemoveTables { cf, ids } => {
            lemma_ids_trip(ids, rest);
            let n = ids.len() as u64;
            assert(crate::edit_codec::op_wire(op) + rest == crate::encoding::uvarint_bytes(12u64 as nat) + (crate::edit_codec::string_wire(cf) + (crate::encoding::uvarint_bytes(n as nat)
                + (crate::edit_codec::ids_wire(ids) + rest))));
        },
    }
}

proof fn lemma_ops_trip(ops: Seq<OpView>, rest: Seq<u8>)
    requires
        edit_fits(ops),
    ensures
        crate::edit_codec::parse_ops(crate::edit_codec::ops_wire(ops) + rest, ops.len()) == Some((ops, rest)),
    decreases ops.len(),
{
    if ops.len() == 0 {
        crate::encoding::lemma_cat_empty(rest);
        assert(ops =~= Seq::empty());
    } else {
        assert forall|i: int| 0 <= i < ops.skip(1).len() implies op_fits(#[trigger] ops.skip(1)[i]) && !empty_update(
            ops.skip(1)[i],
        ) by {
            assert(ops.skip(1)[i] == ops[i + 1]);
        }
        lemma_ops_trip(ops.skip(1), rest);
        lemma_op_round_trip(ops[0], crate::edit_codec::ops_wire(ops.skip(1)) + rest);
        crate::encoding::lemma_cat_assoc(crate::edit_codec::op_wire(ops[0]), crate::edit_codec::ops_wire(ops.skip(1)), rest);
        assert(ops =~= seq![ops[0]] + ops.skip(1));
    }
}

/// What `encode_payload` writes for an edit, `decode_payload` reads back: the
/// same number and the same steps.
pub proof fn lemma_payload_round_trip(edit_id: u64, ops: Seq<OpView>)
    requires
        edit_fits(ops),
    ensures
        crate::edit_codec::parse_payload(crate::edit_codec::payload_wire(edit_id, ops)) == Some((edit_id, ops)),
{
    let e = Seq::<u8>::empty();
    lemma_ops_trip(ops, e);
    crate::encoding::lemma_cat_empty(crate::edit_codec::ops_wire(ops));
    crate::encoding::lemma_uvarint_round_trip(ops.len() as u64, crate::edit_codec::ops_wire(ops));
    lemma_u64le_trip(edit_id, crate::encoding::uvarint_bytes(ops.len()) + crate::edit_codec::ops_wire(ops));
}

/// An update of no field is written as bytes that no reader accepts.
pub proof fn lemma_empty_update_is_refused(op: OpView, rest: Seq<u8>)
    requires
        op_fits(op),
        empty_update(op),
    ensures
        crate::edit_codec::parse_op(crate::edit_codec::op_wire(op) + rest) is None,
{
    broadcast use group_field_trips;

    let cf = op->UpdateTable_cf;
    let id = op->UpdateTable_id;
    let update = op->UpdateTable_update;
    assert(crate::edit_codec::op_wire(op) + rest == crate::encoding::uvarint_bytes(3u64 as nat) + (crate::edit_codec::string_wire(cf) + (crate::encoding::uvarint_bytes(id as nat) + (
    crate::encoding::uvarint_bytes(0u64 as nat) + (crate::edit_codec::update_wire(update) + rest)))));
}

} // verus!
