//! Writing edits.

use vstd::prelude::*;

use crate::edit_codec::{Op, TableUpdate, VersionEdit};
use crate::encoding::{append_slice, append_u64, append_uvarint, append_varint};
use crate::manifest::{SstMeta, WalLayout};

verus! {

/// Append a length and the bytes.
pub fn append_bytes(b: &mut Vec<u8>, v: &[u8])
    ensures
        final(b)@ == old(b)@ + crate::edit_codec::bytes_wire(v@),
{
    broadcast use crate::encoding::lemma_cat_assoc;

    append_uvarint(b, v.len() as u64);
    append_slice(b, v);
}

fn append_string(b: &mut Vec<u8>, v: &String)
    ensures
        final(b)@ == old(b)@ + crate::edit_codec::string_wire(v@),
{
    append_bytes(b, v.as_str().as_bytes())
}

fn append_opt_str(b: &mut Vec<u8>, v: &Option<String>)
    ensures
        final(b)@ == old(b)@ + crate::edit_codec::opt_string_wire(crate::text::opt_text(*v)),
{
    broadcast use crate::encoding::lemma_cat_assoc;

    let ghost b0 = b@;
    match v {
        None => {
            b.push(0);
            assert(b@ =~= b0 + seq![0u8]);
        },
        Some(s) => {
            b.push(1);
            assert(b@ =~= b0 + seq![1u8]);
            append_string(b, s);
        },
    }
}

fn append_opt_bytes(b: &mut Vec<u8>, v: &Option<Vec<u8>>)
    ensures
        final(b)@ == old(b)@ + crate::edit_codec::opt_bytes_wire(crate::manifest::opt_key(*v)),
{
    broadcast use crate::encoding::lemma_cat_assoc;

    let ghost b0 = b@;
    match v {
        None => {
            b.push(0);
            assert(b@ =~= b0 + seq![0u8]);
        },
        Some(s) => {
            b.push(1);
            assert(b@ =~= b0 + seq![1u8]);
            append_bytes(b, s.as_slice());
        },
    }
}

fn append_opt_varint(b: &mut Vec<u8>, v: Option<i64>)
    ensures
        final(b)@ == old(b)@ + crate::edit_codec::opt_varint_wire(v),
{
    broadcast use crate::encoding::lemma_cat_assoc;

    let ghost b0 = b@;
    match v {
        None => {
            b.push(0);
            assert(b@ =~= b0 + seq![0u8]);
        },
        Some(x) => {
            b.push(1);
            assert(b@ =~= b0 + seq![1u8]);
            append_varint(b, x);
        },
    }
}

/// Pieces appended one after another are the pieces joined, appended once.
proof fn lemma_chain(b0: Seq<u8>, w1: Seq<u8>, w2: Seq<u8>, w3: Seq<u8>, w4: Seq<u8>, w5: Seq<u8>, tail: Seq<u8>)
    ensures
        b0 + w1 + w2 + w3 + w4 + w5 + tail == b0 + (w1 + (w2 + (w3 + (w4 + (w5 + tail))))),
{
    let x1 = b0 + w1;
    let x2 = x1 + w2;
    let x3 = x2 + w3;
    let x4 = x3 + w4;
    crate::encoding::lemma_cat_assoc(x4, w5, tail);
    crate::encoding::lemma_cat_assoc(x3, w4, w5 + tail);
    crate::encoding::lemma_cat_assoc(x2, w3, w4 + (w5 + tail));
    crate::encoding::lemma_cat_assoc(x1, w2, w3 + (w4 + (w5 + tail)));
    crate::encoding::lemma_cat_assoc(b0, w1, w2 + (w3 + (w4 + (w5 + tail))));
}

fn append_sst_head(b: &mut Vec<u8>, m: &SstMeta)
    ensures
        final(b)@ == old(b)@ + crate::edit_codec::sst_head_wire(m@),
{
    let ghost b0 = b@;
    append_uvarint(b, m.id);
    append_uvarint(b, m.level as u64);
    append_uvarint(b, m.num_entries);
    append_uvarint(b, m.num_tombstones);
    append_uvarint(b, m.max_seq);
    let ghost b5 = b@;
    append_uvarint(b, m.klog_size);
    append_uvarint(b, m.vlog_size);
    append_bytes(b, m.min_key.as_slice());
    append_bytes(b, m.max_key.as_slice());
    proof {
        let w6 = crate::encoding::uvarint_bytes(m.klog_size as nat);
        let w7 = crate::encoding::uvarint_bytes(m.vlog_size as nat);
        let w8 = crate::edit_codec::bytes_wire(m.min_key@);
        let w9 = crate::edit_codec::bytes_wire(m.max_key@);
        crate::encoding::lemma_cat_assoc(b5 + w6 + w7, w8, w9);
        crate::encoding::lemma_cat_assoc(b5 + w6, w7, w8 + w9);
        crate::encoding::lemma_cat_assoc(b5, w6, w7 + (w8 + w9));
        lemma_chain(b0, crate::encoding::uvarint_bytes(m.id as nat), crate::encoding::uvarint_bytes(m.level as nat), crate::encoding::uvarint_bytes(
            m.num_entries as nat,
        ), crate::encoding::uvarint_bytes(m.num_tombstones as nat), crate::encoding::uvarint_bytes(m.max_seq as nat), w6 + (w7 + (w8 + w9)));
    }
}

fn append_sst_tail(b: &mut Vec<u8>, m: &SstMeta)
    ensures
        final(b)@ == old(b)@ + crate::edit_codec::sst_tail_wire(m@),
{
    let ghost b0 = b@;
    append_opt_str(b, &m.partition);
    append_opt_str(b, &m.tier);
    append_opt_varint(b, m.max_entry_time);
    append_opt_str(b, &m.object);
    append_opt_varint(b, m.last_compaction_time);
    let ghost b5 = b@;
    append_uvarint(b, m.range_count);
    append_uvarint(b, m.range_min_seq);
    append_uvarint(b, m.range_max_seq);
    append_opt_bytes(b, &m.range_min_key);
    append_opt_bytes(b, &m.range_max_key);
    proof {
        let v = m@;
        let w6 = crate::encoding::uvarint_bytes(v.range_count as nat);
        let w7 = crate::encoding::uvarint_bytes(v.range_min_seq as nat);
        let w8 = crate::encoding::uvarint_bytes(v.range_max_seq as nat);
        let w9 = crate::edit_codec::opt_bytes_wire(v.range_min_key);
        let w10 = crate::edit_codec::opt_bytes_wire(v.range_max_key);
        crate::encoding::lemma_cat_assoc(b5 + w6 + w7 + w8, w9, w10);
        crate::encoding::lemma_cat_assoc(b5 + w6 + w7, w8, w9 + w10);
        crate::encoding::lemma_cat_assoc(b5 + w6, w7, w8 + (w9 + w10));
        crate::encoding::lemma_cat_assoc(b5, w6, w7 + (w8 + (w9 + w10)));
        lemma_chain(b0, crate::edit_codec::opt_string_wire(v.partition), crate::edit_codec::opt_string_wire(v.tier), crate::edit_codec::opt_varint_wire(v.max_entry_time),
            crate::edit_codec::opt_string_wire(v.object), crate::edit_codec::opt_varint_wire(v.last_compaction_time), w6 + (w7 + (w8 + (w9 + w10))));
    }
}

fn append_sst_meta(b: &mut Vec<u8>, m: &SstMeta)
    ensures
        final(b)@ == old(b)@ + crate::edit_codec::sst_wire(m@),
{
    let ghost b0 = b@;
    append_sst_head(b, m);
    append_sst_tail(b, m);
    proof {
        crate::encoding::lemma_cat_assoc(b0, crate::edit_codec::sst_head_wire(m@), crate::edit_codec::sst_tail_wire(m@));
    }
}

fn append_if_str(b: &mut Vec<u8>, v: &Option<Option<String>>)
    ensures
        final(b)@ == old(b)@ + crate::edit_codec::if_string_wire(crate::edit_codec::opt_opt_text(*v)),
{
    proof {
        crate::encoding::lemma_cat_empty(b@);
    }
    if let Some(x) = v {
        append_opt_str(b, x);
    }
}

fn append_if_varint(b: &mut Vec<u8>, v: Option<Option<i64>>)
    ensures
        final(b)@ == old(b)@ + crate::edit_codec::if_varint_wire(v),
{
    proof {
        crate::encoding::lemma_cat_empty(b@);
    }
    if let Some(x) = v {
        append_opt_varint(b, x);
    }
}

fn append_update(b: &mut Vec<u8>, update: &TableUpdate)
    ensures
        final(b)@ == old(b)@ + crate::edit_codec::update_wire(update@),
{
    let ghost b0 = b@;
    let ghost u = update@;
    proof {
        crate::encoding::lemma_cat_empty(b0);
    }
    if let Some(level) = update.level {
        append_uvarint(b, level as u64);
    }
    assert(b@ == b0 + crate::edit_codec::if_level_wire(u.level));
    append_if_str(b, &update.tier);
    append_if_str(b, &update.object);
    append_if_str(b, &update.partition);
    append_if_varint(b, update.max_entry_time);
    append_if_varint(b, update.last_compaction_time);
    proof {
        lemma_chain(b0, crate::edit_codec::if_level_wire(u.level), crate::edit_codec::if_string_wire(u.tier), crate::edit_codec::if_string_wire(u.object), crate::edit_codec::if_string_wire(
            u.partition,
        ), crate::edit_codec::if_varint_wire(u.max_entry_time), crate::edit_codec::if_varint_wire(u.last_compaction_time));
    }
}

pub(crate) fn append_ids(b: &mut Vec<u8>, ids: &Vec<u64>)
    ensures
        final(b)@ == old(b)@ + crate::edit_codec::ids_wire(ids@),
{
    let ghost b1 = b@;
    let mut i: usize = 0;
    proof {
        assert(ids@.skip(0) =~= ids@);
    }
    while i < ids.len()
        invariant
            i <= ids.len(),
            b@ + crate::edit_codec::ids_wire(ids@.skip(i as int)) == b1 + crate::edit_codec::ids_wire(ids@),
        decreases ids.len() - i,
    {
        let ghost bi = b@;
        proof {
            assert(ids@.skip(i as int).skip(1) =~= ids@.skip(i + 1));
            crate::encoding::lemma_cat_assoc(bi, crate::encoding::uvarint_bytes(ids@[i as int] as nat), crate::edit_codec::ids_wire(ids@.skip(i + 1)));
        }
        append_uvarint(b, ids[i]);
        i += 1;
    }
    proof {
        crate::encoding::lemma_cat_empty(b@);
    }
}

/// Three pieces appended one after another are the pieces joined, appended once.
proof fn lemma_chain3(b: Seq<u8>, w1: Seq<u8>, w2: Seq<u8>, w3: Seq<u8>)
    ensures
        b + w1 + w2 + w3 == b + (w1 + (w2 + w3)),
{
    crate::encoding::lemma_cat_assoc(b + w1, w2, w3);
    crate::encoding::lemma_cat_assoc(b, w1, w2 + w3);
}

/// Append one step.
pub fn encode_op(b: &mut Vec<u8>, op: &Op)
    ensures
        final(b)@ == old(b)@ + crate::edit_codec::op_wire(op@),
{
    let ghost b0 = b@;
    match op {
        Op::AddTable { cf, meta } => {
            append_uvarint(b, 1);
            append_string(b, cf);
            append_sst_meta(b, meta);
            proof {
                lemma_chain3(b0, crate::encoding::uvarint_bytes(1), crate::edit_codec::string_wire(cf@), crate::edit_codec::sst_wire(meta@));
            }
        },
        Op::RemoveTable { cf, id, expected_level } => {
            append_uvarint(b, 2);
            append_string(b, cf);
            append_uvarint(b, *id);
            append_uvarint(b, *expected_level as u64);
            proof {
                let w3 = crate::encoding::uvarint_bytes(*id as nat);
                let w4 = crate::encoding::uvarint_bytes(*expected_level as nat);
                crate::encoding::lemma_cat_assoc(b0 + crate::encoding::uvarint_bytes(2) + crate::edit_codec::string_wire(cf@), w3, w4);
                lemma_chain3(b0, crate::encoding::uvarint_bytes(2), crate::edit_codec::string_wire(cf@), w3 + w4);
            }
        },
        Op::UpdateTable { cf, id, update } => {
            append_uvarint(b, 3);
            append_string(b, cf);
            append_uvarint(b, *id);
            let m = update.mask();
            append_uvarint(b, m);
            append_update(b, update);
            proof {
                let w3 = crate::encoding::uvarint_bytes(*id as nat);
                let w4 = crate::encoding::uvarint_bytes(m as nat);
                let w5 = crate::edit_codec::update_wire(update@);
                crate::encoding::lemma_cat_assoc(b0 + crate::encoding::uvarint_bytes(3) + crate::edit_codec::string_wire(cf@) + w3, w4, w5);
                crate::encoding::lemma_cat_assoc(b0 + crate::encoding::uvarint_bytes(3) + crate::edit_codec::string_wire(cf@), w3, w4 + w5);
                lemma_chain3(b0, crate::encoding::uvarint_bytes(3), crate::edit_codec::string_wire(cf@), w3 + (w4 + w5));
            }
        },
        Op::CreateCf { name, config } => {
            append_uvarint(b, 4);
            append_string(b, name);
            append_bytes(b, config.as_slice());
            proof {
                lemma_chain3(b0, crate::encoding::uvarint_bytes(4), crate::edit_codec::string_wire(name@), crate::edit_codec::bytes_wire(config@));
            }
        },
        Op::DropCf { name } => {
            append_uvarint(b, 5);
            append_string(b, name);
            proof {
                crate::encoding::lemma_cat_assoc(b0, crate::encoding::uvarint_bytes(5), crate::edit_codec::string_wire(name@));
            }
        },
        Op::SetCfConfig { name, config } => {
            append_uvarint(b, 6);
            append_string(b, name);
            append_bytes(b, config.as_slice());
            proof {
                lemma_chain3(b0, crate::encoding::uvarint_bytes(6), crate::edit_codec::string_wire(name@), crate::edit_codec::bytes_wire(config@));
            }
        },
        Op::SetNextFileId(v) => {
            append_uvarint(b, 7);
            append_uvarint(b, *v);
            proof {
                crate::encoding::lemma_cat_assoc(b0, crate::encoding::uvarint_bytes(7), crate::encoding::uvarint_bytes(*v as nat));
            }
        },
        Op::SetGlobalSeq(v) => {
            append_uvarint(b, 8);
            append_uvarint(b, *v);
            proof {
                crate::encoding::lemma_cat_assoc(b0, crate::encoding::uvarint_bytes(8), crate::encoding::uvarint_bytes(*v as nat));
            }
        },
        Op::SetWalLayout(layout) => {
            append_uvarint(b, 9);
            let ghost b1 = b@;
            let tag: u8 = if *layout == WalLayout::Unified { 1 } else { 0 };
            b.push(tag);
            assert(b@ =~= b1 + seq![tag]);
            proof {
                crate::encoding::lemma_cat_assoc(b0, crate::encoding::uvarint_bytes(9), seq![tag]);
            }
        },
        Op::SetNonce(nonce) => {
            append_uvarint(b, 10);
            append_u64(b, *nonce);
            proof {
                crate::encoding::lemma_cat_assoc(b0, crate::encoding::uvarint_bytes(10), crate::encoding::le_bytes(*nonce as nat, 8));
            }
        },
        Op::SetCapability(bits) => {
            append_uvarint(b, 11);
            append_u64(b, *bits);
            proof {
                crate::encoding::lemma_cat_assoc(b0, crate::encoding::uvarint_bytes(11), crate::encoding::le_bytes(*bits as nat, 8));
            }
        },
        Op::RemoveTables { cf, ids } => {
            append_uvarint(b, 12);
            append_string(b, cf);
            append_uvarint(b, ids.len() as u64);
            append_ids(b, ids);
            proof {
                let w3 = crate::encoding::uvarint_bytes(ids@.len());
                let w4 = crate::edit_codec::ids_wire(ids@);
                crate::encoding::lemma_cat_assoc(b0 + crate::encoding::uvarint_bytes(12) + crate::edit_codec::string_wire(cf@), w3, w4);
                lemma_chain3(b0, crate::encoding::uvarint_bytes(12), crate::edit_codec::string_wire(cf@), w3 + w4);
            }
        },
    }
}

/// One edit as bytes, unframed: its number, how many steps, the steps.
pub fn encode_payload(edit_id: u64, edit: &VersionEdit) -> (r: Vec<u8>)
    ensures
        r@ == crate::edit_codec::payload_wire(edit_id, edit@),
{
    let mut b: Vec<u8> = Vec::new();
    append_u64(&mut b, edit_id);
    append_uvarint(&mut b, edit.ops.len() as u64);
    let ghost b1 = b@;
    let ghost ops = edit@;
    proof {
        crate::encoding::lemma_cat_empty(crate::encoding::le_bytes(edit_id as nat, 8));
        assert(b1 == crate::encoding::le_bytes(edit_id as nat, 8) + crate::encoding::uvarint_bytes(ops.len()));
        crate::encoding::lemma_cat_assoc(crate::encoding::le_bytes(edit_id as nat, 8), crate::encoding::uvarint_bytes(ops.len()), crate::edit_codec::ops_wire(ops));
    }
    let mut i: usize = 0;
    assert(ops.skip(0) =~= ops);
    while i < edit.ops.len()
        invariant
            i <= edit.ops.len(),
            ops == crate::edit_codec::op_views(edit.ops@),
            b@ + crate::edit_codec::ops_wire(ops.skip(i as int)) == b1 + crate::edit_codec::ops_wire(ops),
        decreases edit.ops.len() - i,
    {
        let ghost bi = b@;
        proof {
            assert(ops.skip(i as int).skip(1) =~= ops.skip(i + 1));
            assert(ops.skip(i as int)[0] == edit.ops@[i as int]@);
            crate::encoding::lemma_cat_assoc(bi, crate::edit_codec::op_wire(edit.ops@[i as int]@), crate::edit_codec::ops_wire(ops.skip(i + 1)));
        }
        encode_op(&mut b, &edit.ops[i]);
        i += 1;
    }
    proof {
        crate::encoding::lemma_cat_empty(b@);
    }
    b
}

} // verus!
