//! Reading edits.

use vstd::prelude::*;

use crate::edit_codec::{step_error, Op, OpView, TableUpdate, VersionEdit};
use crate::encoding::{copy_bytes, read_u64, uvarint, varint};
use crate::error::OndaError;
use crate::manifest::{SstMeta, WalLayout};
use crate::text::with_number;

verus! {

/// `String::from_utf8`: the text whose UTF-8 encoding the bytes are, or
/// nothing when they are not UTF-8.
#[verifier::external_body]
fn utf8_string(raw: Vec<u8>) -> (r: Option<String>)
    ensures
        match r {
            Some(s) => vstd::utf8::valid_utf8(raw@) && s@ == vstd::utf8::decode_utf8(raw@),
            None => !vstd::utf8::valid_utf8(raw@),
        },
{
    String::from_utf8(raw).ok()
}

/// A cursor over the bytes of an edit.
struct Cur<'a> {
    p: &'a [u8],
    op_index: u64,
}

impl<'a> Cur<'a> {
    fn take(&mut self, n: usize) -> (r: Result<&'a [u8], OndaError>)
        ensures
            final(self).op_index == old(self).op_index,
            match crate::edit_codec::parse_take(old(self).p@, n as nat) {
                Some((v, rest)) => r is Ok && r->Ok_0@ == v && final(self).p@ == rest,
                None => r is Err && crate::edit_codec::blames_step(r->Err_0, old(self).op_index as nat),
            },
    {
        if self.p.len() < n {
            return Err(step_error(self.op_index, "truncated or invalid field"));
        }
        let (v, rest) = self.p.split_at(n);
        assert(v@ =~= self.p@.take(n as int));
        assert(rest@ =~= self.p@.skip(n as int));
        self.p = rest;
        Ok(v)
    }

    fn u64le(&mut self) -> (r: Result<u64, OndaError>)
        ensures
            final(self).op_index == old(self).op_index,
            match crate::edit_codec::parse_u64le(old(self).p@) {
                Some((v, rest)) => r == Ok::<u64, OndaError>(v) && final(self).p@ == rest,
                None => r is Err && crate::edit_codec::blames_step(r->Err_0, old(self).op_index as nat),
            },
    {
        let b = self.take(8)?;
        assert(b@.take(8) =~= b@);
        Ok(read_u64(b))
    }

    fn uvar(&mut self) -> (r: Result<u64, OndaError>)
        ensures
            final(self).op_index == old(self).op_index,
            match crate::encoding::parse_uvarint(old(self).p@) {
                Some((v, rest)) => r == Ok::<u64, OndaError>(v) && final(self).p@ == rest,
                None => r is Err && crate::edit_codec::blames_step(r->Err_0, old(self).op_index as nat),
            },
    {
        match uvarint(self.p) {
            None => Err(step_error(self.op_index, "truncated or invalid varint")),
            Some((v, n)) => {
                let (_, rest) = self.p.split_at(n);
                assert(rest@ =~= self.p@.skip(n as int));
                self.p = rest;
                Ok(v)
            },
        }
    }

    fn u32_from_uvar(&mut self) -> (r: Result<u32, OndaError>)
        ensures
            final(self).op_index == old(self).op_index,
            match crate::edit_codec::parse_u32v(old(self).p@) {
                Some((v, rest)) => r == Ok::<u32, OndaError>(v) && final(self).p@ == rest,
                None => r is Err && crate::edit_codec::blames_step(r->Err_0, old(self).op_index as nat),
            },
    {
        let v = self.uvar()?;
        if v > 0xFFFF_FFFF {
            return Err(step_error(self.op_index, "level exceeds u32"));
        }
        Ok(v as u32)
    }

    fn byte(&mut self) -> (r: Result<u8, OndaError>)
        ensures
            final(self).op_index == old(self).op_index,
            match crate::edit_codec::parse_byte(old(self).p@) {
                Some((v, rest)) => r == Ok::<u8, OndaError>(v) && final(self).p@ == rest,
                None => r is Err && crate::edit_codec::blames_step(r->Err_0, old(self).op_index as nat),
            },
    {
        let b = self.take(1)?;
        Ok(b[0])
    }

    fn bytes(&mut self) -> (r: Result<Vec<u8>, OndaError>)
        ensures
            final(self).op_index == old(self).op_index,
            match crate::edit_codec::parse_bytes(old(self).p@) {
                Some((v, rest)) => r is Ok && r->Ok_0@ == v && final(self).p@ == rest,
                None => r is Err && crate::edit_codec::blames_step(r->Err_0, old(self).op_index as nat),
            },
    {
        let len = self.uvar()?;
        if len > self.p.len() as u64 {
            return Err(step_error(self.op_index, "truncated or invalid field"));
        }
        let b = self.take(len as usize)?;
        Ok(copy_bytes(b))
    }

    fn string(&mut self) -> (r: Result<String, OndaError>)
        ensures
            final(self).op_index == old(self).op_index,
            match crate::edit_codec::parse_string(old(self).p@) {
                Some((v, rest)) => r is Ok && r->Ok_0@ == v && final(self).p@ == rest,
                None => r is Err && crate::edit_codec::blames_step(r->Err_0, old(self).op_index as nat),
            },
            crate::edit_codec::is_bad_name(old(self).p@) ==> r is Err && crate::text::holds_text(r->Err_0.message_text(), "UTF-8"@),
    {
        let raw = self.bytes()?;
        match utf8_string(raw) {
            Some(s) => Ok(s),
            None => {
                let e = step_error(self.op_index, "name is not valid UTF-8");
                proof {
                    reveal_strlit("name is not valid UTF-8");
                    reveal_strlit("UTF-8");
                    let what = "name is not valid UTF-8"@;
                    assert(what.subrange(18, 18int + "UTF-8"@.len()) =~= "UTF-8"@);
                    assert(crate::text::holds_text(what, "UTF-8"@));
                    let front = crate::edit_codec::step_text(self.op_index as nat);
                    crate::text::lemma_holds_in_piece(front, what, Seq::empty(), "UTF-8"@);
                    assert(front + what + Seq::<char>::empty() =~= front + what);
                }
                Err(e)
            },
        }
    }

    fn opt_string(&mut self) -> (r: Result<Option<String>, OndaError>)
        ensures
            final(self).op_index == old(self).op_index,
            match crate::edit_codec::parse_opt_string(old(self).p@) {
                Some((v, rest)) => r is Ok && crate::text::opt_text(r->Ok_0) == v && final(self).p@ == rest,
                None => r is Err && crate::edit_codec::blames_step(r->Err_0, old(self).op_index as nat),
            },
    {
        let tag = self.byte()?;
        if tag == 0 {
            Ok(None)
        } else if tag == 1 {
            let s = self.string()?;
            Ok(Some(s))
        } else {
            Err(step_error(self.op_index, "optional-string tag is not 0 or 1"))
        }
    }

    fn opt_bytes(&mut self) -> (r: Result<Option<Vec<u8>>, OndaError>)
        ensures
            final(self).op_index == old(self).op_index,
            match crate::edit_codec::parse_opt_bytes(old(self).p@) {
                Some((v, rest)) => r is Ok && crate::manifest::opt_key(r->Ok_0) == v && final(self).p@ == rest,
                None => r is Err && crate::edit_codec::blames_step(r->Err_0, old(self).op_index as nat),
            },
    {
        let tag = self.byte()?;
        if tag == 0 {
            Ok(None)
        } else if tag == 1 {
            let s = self.bytes()?;
            Ok(Some(s))
        } else {
            Err(step_error(self.op_index, "optional-bytes tag is not 0 or 1"))
        }
    }

    fn opt_varint(&mut self) -> (r: Result<Option<i64>, OndaError>)
        ensures
            final(self).op_index == old(self).op_index,
            match crate::edit_codec::parse_opt_varint(old(self).p@) {
                Some((v, rest)) => r == Ok::<Option<i64>, OndaError>(v) && final(self).p@ == rest,
                None => r is Err && crate::edit_codec::blames_step(r->Err_0, old(self).op_index as nat),
            },
    {
        let tag = self.byte()?;
        if tag == 0 {
            Ok(None)
        } else if tag == 1 {
            match varint(self.p) {
                None => Err(step_error(self.op_index, "truncated or invalid signed varint")),
                Some((v, n)) => {
                    let (_, rest) = self.p.split_at(n);
                    assert(rest@ =~= self.p@.skip(n as int));
                    self.p = rest;
                    Ok(Some(v))
                },
            }
        } else {
            Err(step_error(self.op_index, "optional-int tag is not 0 or 1"))
        }
    }

    fn sst_meta(&mut self) -> (r: Result<SstMeta, OndaError>)
        ensures
            final(self).op_index == old(self).op_index,
            match crate::edit_codec::parse_sst(old(self).p@) {
                Some((v, rest)) => r is Ok && r->Ok_0@ == v && final(self).p@ == rest,
                None => r is Err && crate::edit_codec::blames_step(r->Err_0, old(self).op_index as nat),
            },
    {
        let id = self.uvar()?;
        let level = self.u32_from_uvar()?;
        let num_entries = self.uvar()?;
        let num_tombstones = self.uvar()?;
        let max_seq = self.uvar()?;
        let klog_size = self.uvar()?;
        let vlog_size = self.uvar()?;
        let min_key = self.bytes()?;
        let max_key = self.bytes()?;
        let partition = self.opt_string()?;
        let tier = self.opt_string()?;
        let max_entry_time = self.opt_varint()?;
        let object = self.opt_string()?;
        let last_compaction_time = self.opt_varint()?;
        let range_count = self.uvar()?;
        let range_min_seq = self.uvar()?;
        let range_max_seq = self.uvar()?;
        let range_min_key = self.opt_bytes()?;
        let range_max_key = self.opt_bytes()?;
        Ok(SstMeta {
            id, level, num_entries, num_tombstones, max_seq, klog_size, vlog_size, min_key, max_key, partition,
            tier, max_entry_time, object, last_compaction_time, range_count, range_min_seq, range_max_seq,
            range_min_key, range_max_key,
        })
    }

    fn update(&mut self, m: u64) -> (r: Result<TableUpdate, OndaError>)
        requires
            m <= 63,
        ensures
            final(self).op_index == old(self).op_index,
            match crate::edit_codec::parse_update(m, old(self).p@) {
                Some((v, rest)) => r is Ok && r->Ok_0@ == v && final(self).p@ == rest,
                None => r is Err && crate::edit_codec::blames_step(r->Err_0, old(self).op_index as nat),
            },
    {
        let mut update = TableUpdate::default();
        if m % 2 == 1 {
            let v = self.u32_from_uvar()?;
            update.level = Some(v);
        }
        if (m / 2) % 2 == 1 {
            let v = self.opt_string()?;
            update.tier = Some(v);
        }
        if (m / 4) % 2 == 1 {
            let v = self.opt_string()?;
            update.object = Some(v);
        }
        if (m / 8) % 2 == 1 {
            let v = self.opt_string()?;
            update.partition = Some(v);
        }
        if (m / 16) % 2 == 1 {
            let v = self.opt_varint()?;
            update.max_entry_time = Some(v);
        }
        if (m / 32) % 2 == 1 {
            let v = self.opt_varint()?;
            update.last_compaction_time = Some(v);
        }
        Ok(update)
    }

    fn ids(&mut self, count: u64) -> (r: Result<Vec<u64>, OndaError>)
        ensures
            final(self).op_index == old(self).op_index,
            match crate::edit_codec::parse_ids(old(self).p@, count as nat) {
                Some((v, rest)) => r is Ok && r->Ok_0@ == v && final(self).p@ == rest,
                None => r is Err && crate::edit_codec::blames_step(r->Err_0, old(self).op_index as nat),
            },
    {
        let ghost p0 = self.p@;
        let cap: usize = if count < 4096 { count as usize } else { 4096 };
        let mut ids: Vec<u64> = Vec::with_capacity(cap);
        let mut i: u64 = 0;
        while i < count
            invariant
                i <= count,
                self.op_index == old(self).op_index,
                p0 == old(self).p@,
                crate::edit_codec::parse_ids(p0, count as nat) == (match crate::edit_codec::parse_ids(self.p@, (count - i) as nat) {
                    Some((vs, rest)) => Some((ids@ + vs, rest)),
                    None => None::<(Seq<u64>, Seq<u8>)>,
                }),
            decreases count - i,
        {
            let ghost ids0 = ids@;
            let ghost p1 = self.p@;
            let v = self.uvar()?;
            ids.push(v);
            i += 1;
            proof {
                match crate::edit_codec::parse_ids(self.p@, (count - i) as nat) {
                    Some((vs, rest)) => {
                        assert(ids0 + (seq![v] + vs) =~= ids@ + vs);
                    },
                    None => {},
                }
            }
        }
        assert(ids@ + Seq::<u64>::empty() =~= ids@);
        Ok(ids)
    }

    fn op(&mut self) -> (r: Result<Op, OndaError>)
        ensures
            final(self).op_index == old(self).op_index,
            match crate::edit_codec::parse_op(old(self).p@) {
                Some((v, rest)) => r is Ok && r->Ok_0@ == v && final(self).p@ == rest,
                None => r is Err && crate::edit_codec::blames_step(r->Err_0, old(self).op_index as nat),
            },
            crate::edit_codec::has_bad_name(old(self).p@) ==> r is Err && crate::text::holds_text(r->Err_0.message_text(), "UTF-8"@),
    {
        let code = self.uvar()?;
        if code == 1 {
            let cf = self.string()?;
            let meta = self.sst_meta()?;
            Ok(Op::AddTable { cf, meta })
        } else if code == 2 {
            let cf = self.string()?;
            let id = self.uvar()?;
            let expected_level = self.u32_from_uvar()?;
            Ok(Op::RemoveTable { cf, id, expected_level })
        } else if code == 3 {
            let cf = self.string()?;
            let id = self.uvar()?;
            let m = self.uvar()?;
            if m == 0 || m > 63 {
                return Err(step_error(self.op_index, "UpdateTable mask is empty or outside the known mask 0x3f"));
            }
            let update = self.update(m)?;
            Ok(Op::UpdateTable { cf, id, update })
        } else if code == 4 {
            let name = self.string()?;
            let config = self.bytes()?;
            Ok(Op::CreateCf { name, config })
        } else if code == 5 {
            let name = self.string()?;
            Ok(Op::DropCf { name })
        } else if code == 6 {
            let name = self.string()?;
            let config = self.bytes()?;
            Ok(Op::SetCfConfig { name, config })
        } else if code == 7 {
            let v = self.uvar()?;
            Ok(Op::SetNextFileId(v))
        } else if code == 8 {
            let v = self.uvar()?;
            Ok(Op::SetGlobalSeq(v))
        } else if code == 9 {
            let b = self.byte()?;
            if b == 0 {
                Ok(Op::SetWalLayout(WalLayout::PerColumnFamily))
            } else if b == 1 {
                Ok(Op::SetWalLayout(WalLayout::Unified))
            } else {
                Err(step_error(self.op_index, "SetWalLayout byte is not 0 or 1"))
            }
        } else if code == 10 {
            let v = self.u64le()?;
            Ok(Op::SetNonce(v))
        } else if code == 11 {
            let v = self.u64le()?;
            Ok(Op::SetCapability(v))
        } else if code == 12 {
            let cf = self.string()?;
            let count = self.uvar()?;
            let ids = self.ids(count)?;
            Ok(Op::RemoveTables { cf, ids })
        } else if code > 63 {
            Err(step_error(self.op_index, "op code is above the never-assigned bound 63"))
        } else {
            Err(step_error(self.op_index, "op code is unassigned"))
        }
    }
}

/// Read one edit from exactly `payload`.
pub fn decode_payload(payload: &[u8]) -> (r: Result<(u64, VersionEdit), OndaError>)
    ensures
        match crate::edit_codec::parse_payload(payload@) {
            Some((id, ops)) => r is Ok && r->Ok_0.0 == id && r->Ok_0.1@ == ops,
            None => r is Err && crate::edit_codec::explains_payload(r->Err_0, payload@),
        },
{
    let mut cur = Cur { p: payload, op_index: 0 };
    let edit_id = cur.u64le()?;
    let count = cur.uvar()?;
    let cap: usize = if count < 4096 { count as usize } else { 4096 };
    let mut ops: Vec<Op> = Vec::with_capacity(cap);
    let ghost p0 = cur.p@;
    let mut i: u64 = 0;
    assert(crate::edit_codec::op_views(ops@) =~= Seq::empty());
    while i < count
        invariant
            i <= count,
            crate::edit_codec::parse_ops(p0, count as nat) == (match crate::edit_codec::parse_ops(cur.p@, (count - i) as nat) {
                Some((vs, rest)) => Some((crate::edit_codec::op_views(ops@) + vs, rest)),
                None => None::<(Seq<OpView>, Seq<u8>)>,
            }),
            crate::edit_codec::parse_payload(payload@) == (match crate::edit_codec::parse_ops(p0, count as nat) {
                None => None,
                Some((ops, s)) => if s.len() == 0 { Some((edit_id, ops)) } else { None },
            }),
            crate::edit_codec::parse_u64le(payload@) matches Some((id0, s0)) && (crate::encoding::parse_uvarint(s0) matches Some((n0, s1)) && n0
                == count && s1 == p0),
            crate::edit_codec::readable_ops(p0, count as nat) == i + crate::edit_codec::readable_ops(cur.p@, (count - i) as nat),
            crate::edit_codec::stops_at_name(p0, count as nat) == crate::edit_codec::stops_at_name(cur.p@, (count - i) as nat),
        decreases count - i,
    {
        let ghost ops0 = ops@;
        cur.op_index = i;
        let op = cur.op()?;
        ops.push(op);
        i += 1;
        proof {
            match crate::edit_codec::parse_ops(cur.p@, (count - i) as nat) {
                Some((vs, rest)) => {
                    assert(crate::edit_codec::op_views(ops0) + (seq![op@] + vs) =~= crate::edit_codec::op_views(ops@) + vs);
                },
                None => {},
            }
        }
    }
    assert(crate::edit_codec::op_views(ops@) + Seq::<OpView>::empty() =~= crate::edit_codec::op_views(ops@));
    if cur.p.len() != 0 {
        return Err(OndaError::Corruption(with_number("manifest edit ", edit_id, ": trailing bytes after the last op")));
    }
    Ok((edit_id, VersionEdit::new(ops)))
}

} // verus!
