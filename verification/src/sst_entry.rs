//! Entries of a data block.
//!
//! ```text
//! base      flags(1) | key_len | val_len | seq | ttl? | key | value or vlog_off
//! extended  kind | modifiers | key_len | val_len | seq | ttl? | key | value or vlog_off
//! delta     kind | modifiers | shared | suffix_len | val_len | seq | ttl? | suffix | value or vlog_off
//! ```
//!
//! Numbers are varints, the expiry a signed one that is there only if a flag
//! says so; an offset into the value log has eight bytes.

use vstd::prelude::*;

use crate::comparator::compare_bytes;
use crate::encoding::{append_slice, append_u64, append_uvarint, append_varint, read_u64_at, varint};
use crate::error::OndaError;
use crate::flags;
use crate::format::{
    check_entry_flags, check_modifiers, check_point_kind, kind_to_point_flags, normalized_entry_flags, point_kind, Fault, MODIFIERS_KNOWN,
};
use crate::reader::take_uvarint;

verus! {

/// How the entries of a table are laid out.
#[derive(Debug, Clone, Copy, PartialEq, Eq, Structural)]
pub enum EntryLayout {
    /// A flags byte: puts and deletions only.
    Base,
    /// A kind and modifiers.
    Extended,
}

/// What an entry holds.
#[verifier::ext_equal]
pub struct Fields {
    pub kind: u64,
    pub flags: u8,
    /// How many bytes of the key are those of the entry before.
    pub shared: u64,
    /// The bytes of the key that stand in the entry.
    pub key: Seq<u8>,
    /// The length of the value, wherever it stands.
    pub val_len: u64,
    pub seq: u64,
    pub ttl: i64,
    /// The value, where it stands in the entry.
    pub value: Seq<u8>,
    /// Where the value log holds it, where it does.
    pub vlog_off: u64,
}

// ---------------------------------------------------------------------------
// What the bytes of an entry mean
// ---------------------------------------------------------------------------

/// The flags that a kind and its modifiers stand for.
pub open spec fn folded_flags(kind: u64, mods: u64) -> u8 {
    let t: u8 = if crate::format::kind_is_tombstone(kind) { flags::TOMBSTONE } else { 0 };
    let s: u8 = if kind == crate::format::KIND_SINGLE_DELETE { flags::SINGLE_DELETE } else { 0 };
    (mods as u8) | t | s
}

/// Flags and kind at the front of an entry, and what follows them.
pub open spec fn parse_head(s: Seq<u8>, layout: EntryLayout) -> Result<(u8, u64, Seq<u8>), Fault> {
    match layout {
        EntryLayout::Base => if s.len() == 0 || !crate::format::flags_ok(s[0]) {
            Err(Fault::Corrupt)
        } else {
            Ok((
                s[0],
                crate::format::point_kind_of(s[0] & flags::TOMBSTONE != 0, s[0] & flags::SINGLE_DELETE != 0),
                s.skip(1),
            ))
        },
        EntryLayout::Extended => match crate::encoding::parse_uvarint(s) {
            None => Err(Fault::Corrupt),
            Some((kind, s)) => match crate::format::point_kind_fault(kind) {
                Some(f) => Err(f),
                None => match crate::encoding::parse_uvarint(s) {
                    None => Err(Fault::Corrupt),
                    Some((mods, s)) => if mods & !MODIFIERS_KNOWN != 0 {
                        Err(Fault::Unsupported)
                    } else if !crate::format::flags_ok(folded_flags(kind, mods)) {
                        Err(Fault::Corrupt)
                    } else {
                        Ok((folded_flags(kind, mods), kind, s))
                    },
                },
            },
        },
    }
}

/// Key and value at the front of `s`, given what stood before them.
pub open spec fn parse_body(s: Seq<u8>, kind: u64, fl: u8, shared: u64, klen: u64, vlen: u64, seq: u64, ttl: i64) -> Option<(Fields, Seq<u8>)> {
    if klen > s.len() || shared > usize::MAX {
        None
    } else {
        let key = s.take(klen as int);
        let s = s.skip(klen as int);
        if fl & flags::HAS_VLOG != 0 {
            if s.len() < 8 {
                None
            } else {
                Some((
                    Fields {
                        kind,
                        flags: fl,
                        shared,
                        key,
                        val_len: vlen,
                        seq,
                        ttl,
                        value: Seq::empty(),
                        vlog_off: crate::encoding::le_value(s.take(8)) as u64,
                    },
                    s.skip(8),
                ))
            }
        } else if vlen > s.len() {
            None
        } else {
            Some((
                Fields { kind, flags: fl, shared, key, val_len: vlen, seq, ttl, value: s.take(vlen as int), vlog_off: 0 },
                s.skip(vlen as int),
            ))
        }
    }
}

/// The expiry at the front of `s`, where the flags say that there is one.
pub open spec fn parse_ttl(s: Seq<u8>, fl: u8) -> Option<(i64, Seq<u8>)> {
    if fl & flags::HAS_TTL != 0 { crate::encoding::parse_varint(s) } else { Some((0, s)) }
}

/// How many bytes are shared, in a delta entry; none in another.
pub open spec fn parse_shared(s: Seq<u8>, delta: bool) -> Option<(u64, Seq<u8>)> {
    if delta { crate::encoding::parse_uvarint(s) } else { Some((0, s)) }
}

/// What follows flags and kind.
pub open spec fn parse_tail(s: Seq<u8>, kind: u64, fl: u8, delta: bool) -> Option<(Fields, Seq<u8>)> {
    match parse_shared(s, delta) {
        None => None,
        Some((shared, s)) => match crate::encoding::parse_uvarint(s) {
            None => None,
            Some((klen, s)) => match crate::encoding::parse_uvarint(s) {
                None => None,
                Some((vlen, s)) => match crate::encoding::parse_uvarint(s) {
                    None => None,
                    Some((seq, s)) => match parse_ttl(s, fl) {
                        None => None,
                        Some((ttl, s)) => parse_body(s, kind, fl, shared, klen, vlen, seq, ttl),
                    },
                },
            },
        },
    }
}

/// The entry at the front of `s`, and what follows it.
pub open spec fn parse_entry(s: Seq<u8>, layout: EntryLayout, delta: bool) -> Result<(Fields, Seq<u8>), Fault> {
    match parse_head(s, layout) {
        Err(f) => Err(f),
        Ok((fl, kind, s)) => match parse_tail(s, kind, fl, delta) {
            None => Err(Fault::Corrupt),
            Some(x) => Ok(x),
        },
    }
}

// ---------------------------------------------------------------------------
// Entries by offset
// ---------------------------------------------------------------------------

/// An entry of a block, its key and value given by where they stand in it.
#[derive(Debug, Clone, Copy)]
pub struct DecEntry {
    /// Where the bytes of the key that stand in the entry start.
    pub key_start: usize,
    pub key_len: usize,
    /// How many bytes of the key are those of the entry before.
    pub key_shared: usize,
    pub val_start: usize,
    /// The length of the value, wherever it stands.
    pub val_len: usize,
    pub seq: u64,
    pub ttl: i64,
    pub flags: u8,
    pub kind: u8,
    pub vlog_off: u64,
}

/// Whether `d` gives the entry `f` of the block `raw`, which ends at `next`.
pub open spec fn locates(d: DecEntry, raw: Seq<u8>, f: Fields, next: int) -> bool {
    &&& d.key_start + d.key_len <= d.val_start <= next <= raw.len()
    &&& raw.subrange(d.key_start as int, d.key_start + d.key_len) == f.key
    &&& d.key_shared == f.shared
    &&& d.seq == f.seq
    &&& d.ttl == f.ttl
    &&& d.flags == f.flags
    &&& d.kind == f.kind
    &&& d.vlog_off == f.vlog_off
    &&& d.val_len == f.val_len as usize
    &&& f.flags & flags::HAS_VLOG == 0 ==> d.val_start + d.val_len == next && raw.subrange(d.val_start as int, next) == f.value
    &&& f.flags & flags::HAS_VLOG != 0 ==> d.val_start + 8 == next
}

impl DecEntry {
    /// Whether the entry deletes its key.
    pub fn tombstone(&self) -> (r: bool)
        ensures
            r == (self.flags & flags::TOMBSTONE != 0),
    {
        self.flags & flags::TOMBSTONE != 0
    }

    /// Whether the entry deletes one put of its key.
    pub fn single_delete(&self) -> (r: bool)
        ensures
            r == (self.flags & flags::SINGLE_DELETE != 0),
    {
        self.flags & flags::SINGLE_DELETE != 0
    }

    /// Whether the value stands in the value log.
    pub fn has_vlog(&self) -> (r: bool)
        ensures
            r == (self.flags & flags::HAS_VLOG != 0),
    {
        self.flags & flags::HAS_VLOG != 0
    }

    /// The key, where none of it is shared.
    pub fn user_key<'a>(&self, raw: &'a [u8]) -> (r: &'a [u8])
        requires
            self.key_shared == 0,
            self.key_start + self.key_len <= raw@.len(),
        ensures
            r@ == raw@.subrange(self.key_start as int, self.key_start + self.key_len),
    {
        let n = raw.len();
        assert(self.key_start + self.key_len <= n);
        &raw[self.key_start..self.key_start + self.key_len]
    }

    /// The value, where it stands in the entry.
    pub fn inline_value<'a>(&self, raw: &'a [u8]) -> (r: &'a [u8])
        requires
            self.val_start + self.val_len <= raw@.len(),
        ensures
            r@ == raw@.subrange(self.val_start as int, self.val_start + self.val_len),
    {
        let n = raw.len();
        assert(self.val_start + self.val_len <= n);
        &raw[self.val_start..self.val_start + self.val_len]
    }
}

fn corrupt(what: &str) -> (r: OndaError)
    ensures
        r is Corruption,
        r.message_text() == "sst: "@ + what@ + ""@,
{
    OndaError::Corruption(crate::text::join3("sst: ", what, ""))
}

proof fn lemma_rest_is_suffix(raw: Seq<u8>, cur: Seq<u8>, rest: Seq<u8>, v: u64)
    requires
        cur == raw.skip(raw.len() - cur.len()),
        cur.len() <= raw.len(),
        crate::encoding::parse_uvarint(cur) == Some((v, rest)),
    ensures
        rest.len() < cur.len(),
        rest == raw.skip(raw.len() - rest.len()),
{
    crate::encoding::lemma_uvarint_value_bound(cur, 0);
    assert(rest =~= raw.skip(raw.len() - rest.len()));
}

/// Read what follows flags and kind: `p` is what is left of `raw`.
fn decode_tail(raw: &[u8], p: &[u8], kind: u64, fl: u8, delta: bool) -> (r: Option<(DecEntry, usize)>)
    requires
        p@.len() <= raw@.len(),
        p@ == raw@.skip(raw@.len() - p@.len()),
        kind <= 63,
    ensures
        match parse_tail(p@, kind, fl, delta) {
            None => r is None,
            Some((f, rest)) => r matches Some((d, next)) && locates(d, raw@, f, next as int) && next == raw@.len() - rest.len() && rest
                == raw@.skip(next as int) && f.kind == kind && f.flags == fl && next > raw@.len() - p@.len() && (!delta ==> f.shared == 0),
        },
{
    let (shared, p1) = if delta {
        match take_uvarint(p) {
            None => {
                return None;
            },
            Some((v, rest)) => {
                proof {
                    lemma_rest_is_suffix(raw@, p@, rest@, v);
                }
                (v, rest)
            },
        }
    } else {
        (0u64, p)
    };
    let (klen, p2) = match take_uvarint(p1) {
        None => {
            return None;
        },
        Some(x) => x,
    };
    proof {
        lemma_rest_is_suffix(raw@, p1@, p2@, klen);
    }
    let (vlen, p3) = match take_uvarint(p2) {
        None => {
            return None;
        },
        Some(x) => x,
    };
    proof {
        lemma_rest_is_suffix(raw@, p2@, p3@, vlen);
    }
    let (seq, p4) = match take_uvarint(p3) {
        None => {
            return None;
        },
        Some(x) => x,
    };
    proof {
        lemma_rest_is_suffix(raw@, p3@, p4@, seq);
    }
    let (ttl, p5) = if fl & flags::HAS_TTL != 0 {
        match varint(p4) {
            None => {
                return None;
            },
            Some((t, n)) => {
                let (_, rest) = p4.split_at(n);
                proof {
                    assert(rest@ =~= p4@.skip(n as int));
                    assert(rest@ =~= raw@.skip(raw@.len() - rest@.len()));
                }
                (t, rest)
            },
        }
    } else {
        (0i64, p4)
    };
    assert(parse_tail(p@, kind, fl, delta) == parse_body(p5@, kind, fl, shared, klen, vlen, seq, ttl));
    decode_body(raw, p5, kind, fl, shared, klen, vlen, seq, ttl)
}

/// Read key and value: `p5` is what is left of `raw`.
fn decode_body(raw: &[u8], p5: &[u8], kind: u64, fl: u8, shared: u64, klen: u64, vlen: u64, seq: u64, ttl: i64) -> (r: Option<(DecEntry, usize)>)
    requires
        p5@.len() <= raw@.len(),
        p5@ == raw@.skip(raw@.len() - p5@.len()),
        kind <= 63,
    ensures
        match parse_body(p5@, kind, fl, shared, klen, vlen, seq, ttl) {
            None => r is None,
            Some((f, rest)) => r matches Some((d, next)) && locates(d, raw@, f, next as int) && next == raw@.len() - rest.len() && rest
                == raw@.skip(next as int) && f.kind == kind && f.flags == fl && next >= raw@.len() - p5@.len() && f.shared == shared,
        },
{
    if klen > p5.len() as u64 || shared > usize::MAX as u64 {
        return None;
    }
    let key_start = raw.len() - p5.len();
    let val_start = key_start + klen as usize;
    let left = p5.len() - klen as usize;
    let ghost s2 = p5@.skip(klen as int);
    proof {
        assert(s2 =~= raw@.skip(val_start as int));
        assert(raw@.subrange(key_start as int, val_start as int) =~= p5@.take(klen as int));
    }
    if fl & flags::HAS_VLOG != 0 {
        if left < 8 {
            return None;
        }
        let off = read_u64_at(raw, val_start);
        proof {
            assert(raw@.subrange(val_start as int, val_start + 8) =~= s2.take(8));
            assert(s2.skip(8) =~= raw@.skip(val_start + 8));
        }
        let d = DecEntry {
            key_start,
            key_len: klen as usize,
            key_shared: shared as usize,
            val_start,
            val_len: vlen as usize,
            seq,
            ttl,
            flags: fl,
            kind: kind as u8,
            vlog_off: off,
        };
        Some((d, val_start + 8))
    } else {
        if vlen > left as u64 {
            return None;
        }
        let next = val_start + vlen as usize;
        proof {
            assert(raw@.subrange(val_start as int, next as int) =~= s2.take(vlen as int));
            assert(s2.skip(vlen as int) =~= raw@.skip(next as int));
        }
        let d = DecEntry {
            key_start,
            key_len: klen as usize,
            key_shared: shared as usize,
            val_start,
            val_len: vlen as usize,
            seq,
            ttl,
            flags: fl,
            kind: kind as u8,
            vlog_off: 0,
        };
        Some((d, next))
    }
}

/// Read a kind and modifiers at the front of `p`.
fn decode_kind(p: &[u8]) -> (r: Result<(u8, u64, &[u8]), OndaError>)
    ensures
        match parse_head(p@, EntryLayout::Extended) {
            Ok((fl, kind, rest)) => r matches Ok((a, b, c)) && a == fl && b == kind && c@ == rest && kind <= 63,
            Err(f) => r is Err && crate::format::reports(r->Err_0, f),
        },
        r matches Ok((a, b, c)) ==> c@.len() < p@.len() && c@ == p@.skip(p@.len() - c@.len()),
{
    let (kind, p1) = match take_uvarint(p) {
        None => {
            return Err(corrupt("malformed entry"));
        },
        Some(x) => x,
    };
    proof {
        assert(p@.skip(0) =~= p@);
        lemma_rest_is_suffix(p@, p@, p1@, kind);
    }
    check_point_kind(kind)?;
    let (mods, p2) = match take_uvarint(p1) {
        None => {
            return Err(corrupt("malformed entry"));
        },
        Some(x) => x,
    };
    proof {
        lemma_rest_is_suffix(p@, p1@, p2@, mods);
    }
    check_modifiers(mods)?;
    let (tombstone, single_delete) = kind_to_point_flags(kind);
    let t: u8 = if tombstone { flags::TOMBSTONE } else { 0 };
    let s: u8 = if single_delete { flags::SINGLE_DELETE } else { 0 };
    let fl = (mods as u8) | t | s;
    check_entry_flags(fl)?;
    Ok((fl, kind, p2))
}

/// Read the entry at `off`: what it holds and where it ends.
pub fn decode_entry(raw: &[u8], layout: EntryLayout, off: usize) -> (r: Result<(DecEntry, usize), OndaError>)
    ensures
        off >= raw@.len() ==> r is Err && r->Err_0 is Corruption,
        off < raw@.len() ==> match parse_entry(raw@.skip(off as int), layout, false) {
            Ok((f, rest)) => r matches Ok((d, next)) && locates(d, raw@, f, next as int) && next == raw@.len() - rest.len() && rest == raw@.skip(
                next as int,
            ) && off < next && d.key_shared == 0,
            Err(f) => r is Err && crate::format::reports(r->Err_0, f),
        },
{
    if off >= raw.len() {
        return Err(corrupt("malformed entry"));
    }
    let (_, p) = raw.split_at(off);
    assert(p@ =~= raw@.skip(off as int));
    let (fl, kind, p1) = match layout {
        EntryLayout::Base => {
            let fl = p[0];
            check_entry_flags(fl)?;
            let kind = point_kind(fl & flags::TOMBSTONE != 0, fl & flags::SINGLE_DELETE != 0);
            let (_, rest) = p.split_at(1);
            assert(rest@ =~= p@.skip(1));
            (fl, kind, rest)
        },
        EntryLayout::Extended => decode_kind(p)?,
    };
    assert(p1@ =~= raw@.skip(raw@.len() - p1@.len()));
    match decode_tail(raw, p1, kind, fl, false) {
        None => Err(corrupt("malformed entry")),
        Some(x) => Ok(x),
    }
}

/// Read the delta entry at `off`, without putting its key together.
pub fn decode_delta_header(raw: &[u8], off: usize) -> (r: Result<(DecEntry, usize), OndaError>)
    ensures
        off >= raw@.len() ==> r is Err && r->Err_0 is Corruption,
        off < raw@.len() ==> match parse_entry(raw@.skip(off as int), EntryLayout::Extended, true) {
            Ok((f, rest)) => r matches Ok((d, next)) && locates(d, raw@, f, next as int) && next == raw@.len() - rest.len() && rest == raw@.skip(
                next as int,
            ) && off < next,
            Err(f) => r is Err && crate::format::reports(r->Err_0, f),
        },
{
    if off >= raw.len() {
        return Err(corrupt("malformed delta entry"));
    }
    let (_, p) = raw.split_at(off);
    assert(p@ =~= raw@.skip(off as int));
    let (fl, kind, p1) = decode_kind(p)?;
    assert(p1@ =~= raw@.skip(raw@.len() - p1@.len()));
    match decode_tail(raw, p1, kind, fl, true) {
        None => Err(corrupt("malformed delta entry")),
        Some(x) => Ok(x),
    }
}

/// The delta entry at the front of `s`, where it shares nothing.
pub open spec fn parse_anchor(s: Seq<u8>) -> Result<(Fields, Seq<u8>), Fault> {
    match parse_entry(s, EntryLayout::Extended, true) {
        Err(f) => Err(f),
        Ok((f, rest)) => if f.shared != 0 { Err(Fault::Corrupt) } else { Ok((f, rest)) },
    }
}

/// Read the restart anchor at `off`: a delta entry that shares nothing.
pub fn decode_delta_anchor(raw: &[u8], off: usize) -> (r: Result<(DecEntry, usize), OndaError>)
    ensures
        off >= raw@.len() ==> r is Err && r->Err_0 is Corruption,
        off < raw@.len() ==> match parse_anchor(raw@.skip(off as int)) {
            Ok((f, rest)) => r matches Ok((d, next)) && locates(d, raw@, f, next as int) && next == raw@.len() - rest.len() && rest == raw@.skip(
                next as int,
            ) && off < next && d.key_shared == 0,
            Err(f) => r is Err && crate::format::reports(r->Err_0, f),
        },
{
    let (entry, next) = decode_delta_header(raw, off)?;
    if entry.key_shared != 0 {
        return Err(corrupt("restart anchor shares a key prefix"));
    }
    Ok((entry, next))
}

/// The key of a delta entry behind an entry with the key `prev`. Under the
/// plain order of bytes keys may not descend.
pub open spec fn delta_key(f: Fields, prev: Seq<u8>, bytewise: bool) -> Option<Seq<u8>> {
    if f.shared > prev.len() {
        None
    } else {
        let key = prev.take(f.shared as int) + f.key;
        if bytewise && !crate::comparator::bytes_le(prev, key) { None } else { Some(key) }
    }
}

/// The delta entry at the front of `s`, behind an entry with the key `prev`:
/// what it holds, its key, and what follows it.
pub open spec fn parse_delta(s: Seq<u8>, prev: Seq<u8>, bytewise: bool) -> Result<(Fields, Seq<u8>, Seq<u8>), Fault> {
    match parse_entry(s, EntryLayout::Extended, true) {
        Err(f) => Err(f),
        Ok((f, rest)) => match delta_key(f, prev, bytewise) {
            None => Err(Fault::Corrupt),
            Some(key) => Ok((f, key, rest)),
        },
    }
}

/// Whether the delta entry at the front of `s` shares more bytes than the key
/// `prev` has.
pub open spec fn shares_too_much(s: Seq<u8>, prev: Seq<u8>) -> bool {
    parse_entry(s, EntryLayout::Extended, true) matches Ok((f, _)) && f.shared > prev.len()
}

proof fn lemma_common_front(p: Seq<u8>, a: Seq<u8>, b: Seq<u8>)
    ensures
        crate::comparator::bytes_le(p + a, p + b) == crate::comparator::bytes_le(a, b),
    decreases p.len(),
{
    if p.len() == 0 {
        assert(p + a =~= a);
        assert(p + b =~= b);
    } else {
        lemma_common_front(p.skip(1), a, b);
        assert((p + a).skip(1) =~= p.skip(1) + a);
        assert((p + b).skip(1) =~= p.skip(1) + b);
    }
}

/// Read the delta entry at `off`, behind one with the key `key`, which becomes
/// the key of this one. An error leaves it alone.
pub fn decode_entry_delta(raw: &[u8], off: usize, key: &mut Vec<u8>, bytewise: bool) -> (r: Result<(DecEntry, usize), OndaError>)
    ensures
        off >= raw@.len() ==> r is Err && r->Err_0 is Corruption,
        r is Err ==> final(key)@ == old(key)@,
        off < raw@.len() ==> match parse_delta(raw@.skip(off as int), old(key)@, bytewise) {
            Ok((f, k, rest)) => r matches Ok((d, next)) && locates(d, raw@, f, next as int) && next == raw@.len() - rest.len() && rest
                == raw@.skip(next as int) && off < next && final(key)@ == k,
            Err(f) => r is Err && crate::format::reports(r->Err_0, f),
        },
        off < raw@.len() && shares_too_much(raw@.skip(off as int), old(key)@) ==> r is Err && crate::text::holds_text(
            r->Err_0.message_text(),
            "shared_len"@,
        ),
{
    let (entry, next) = decode_delta_header(raw, off)?;
    let ghost k0 = key@;
    if entry.key_shared > key.len() {
        proof {
            let what = "delta shared_len exceeds the previous key"@;
            reveal_strlit("delta shared_len exceeds the previous key");
            reveal_strlit("shared_len");
            assert(what.subrange(6, 6int + "shared_len"@.len()) =~= "shared_len"@);
            crate::text::lemma_holds_in_piece("sst: "@, what, ""@, "shared_len"@);
        }
        return Err(corrupt("delta shared_len exceeds the previous key"));
    }
    let n = raw.len();
    let suffix = &raw[entry.key_start..entry.key_start + entry.key_len];
    if bytewise {
        let (_, old_tail) = key.as_slice().split_at(entry.key_shared);
        proof {
            let p = k0.take(entry.key_shared as int);
            assert(k0 =~= p + old_tail@);
            lemma_common_front(p, old_tail@, suffix@);
        }
        if compare_bytes(suffix, old_tail).is_lt() {
            return Err(corrupt("delta block keys are not in order"));
        }
    }
    key.truncate(entry.key_shared);
    append_slice(key, suffix);
    proof {
        assert(key@ =~= k0.take(entry.key_shared as int) + suffix@);
    }
    Ok((entry, next))
}

// ---------------------------------------------------------------------------
// Writing entries
// ---------------------------------------------------------------------------

/// Flags and kind as bytes.
pub open spec fn head_wire(layout: EntryLayout, kind: u64, fl: u8) -> Seq<u8> {
    match layout {
        EntryLayout::Base => seq![fl],
        EntryLayout::Extended => crate::encoding::uvarint_bytes(kind as nat) + crate::encoding::uvarint_bytes(
            ((fl as u64) & MODIFIERS_KNOWN) as nat,
        ),
    }
}

/// The flags of an entry of this kind.
pub open spec fn flags_for(kind: u64, ttl: i64, has_vlog: bool) -> u8 {
    crate::format::entry_flags(crate::format::kind_is_tombstone(kind), kind == crate::format::KIND_SINGLE_DELETE, ttl != 0, has_vlog)
}

pub open spec fn shared_wire(delta: bool, shared: nat) -> Seq<u8> {
    if delta { crate::encoding::uvarint_bytes(shared) } else { Seq::empty() }
}

pub open spec fn ttl_wire(ttl: i64) -> Seq<u8> {
    if ttl != 0 { crate::encoding::varint_bytes(ttl as int) } else { Seq::empty() }
}

pub open spec fn value_wire(has_vlog: bool, vlog_off: u64, value: Seq<u8>) -> Seq<u8> {
    if has_vlog { crate::encoding::le_bytes(vlog_off as nat, 8) } else { value }
}

/// What follows flags and kind, as bytes.
pub open spec fn tail_wire(delta: bool, shared: nat, key: Seq<u8>, value: Seq<u8>, seq: u64, ttl: i64, has_vlog: bool, vlog_off: u64) -> Seq<u8> {
    shared_wire(delta, shared) + (crate::encoding::uvarint_bytes(key.len()) + (crate::encoding::uvarint_bytes(value.len()) + (
    crate::encoding::uvarint_bytes(seq as nat) + (ttl_wire(ttl) + (key + value_wire(has_vlog, vlog_off, value))))))
}

/// An entry as bytes.
pub open spec fn entry_wire(
    layout: EntryLayout,
    delta: bool,
    shared: nat,
    key: Seq<u8>,
    value: Seq<u8>,
    seq: u64,
    ttl: i64,
    kind: u64,
    has_vlog: bool,
    vlog_off: u64,
) -> Seq<u8> {
    head_wire(layout, kind, flags_for(kind, ttl, has_vlog)) + tail_wire(
        delta,
        shared,
        key,
        value,
        seq,
        ttl,
        has_vlog && !crate::format::kind_is_tombstone(kind),
        vlog_off,
    )
}

proof fn lemma_chain(d: Seq<u8>, a: Seq<u8>, b: Seq<u8>, c: Seq<u8>, e: Seq<u8>, f: Seq<u8>, g: Seq<u8>, h: Seq<u8>)
    ensures
        d + a + b + c + e + f + g + h == d + (a + (b + (c + (e + (f + (g + h)))))),
{
    let w = g + h;
    let x = f + w;
    let y = e + x;
    let z = c + y;
    let u = b + z;
    assert(d + a + b + c + e + f + g + h =~= d + a + b + c + e + f + w);
    assert(d + a + b + c + e + f + w =~= d + a + b + c + e + x);
    assert(d + a + b + c + e + x =~= d + a + b + c + y);
    assert(d + a + b + c + y =~= d + a + b + z);
    assert(d + a + b + z =~= d + a + u);
    assert(d + a + u =~= d + (a + u));
}

fn append_head(dst: &mut Vec<u8>, layout: EntryLayout, kind: u64, fl: u8)
    ensures
        final(dst)@ == old(dst)@ + head_wire(layout, kind, fl),
{
    let ghost d0 = dst@;
    match layout {
        EntryLayout::Base => {
            dst.push(fl);
            assert(dst@ =~= d0 + seq![fl]);
        },
        EntryLayout::Extended => {
            append_uvarint(dst, kind);
            append_uvarint(dst, (fl as u64) & MODIFIERS_KNOWN);
            assert(dst@ =~= d0 + head_wire(layout, kind, fl));
        },
    }
}

fn append_tail(dst: &mut Vec<u8>, delta: bool, shared: u64, key: &[u8], value: &[u8], seq: u64, ttl: i64, has_vlog: bool, vlog_off: u64)
    ensures
        final(dst)@ == old(dst)@ + tail_wire(delta, shared as nat, key@, value@, seq, ttl, has_vlog, vlog_off),
{
    let ghost d0 = dst@;
    if delta {
        append_uvarint(dst, shared);
    }
    assert(dst@ =~= d0 + shared_wire(delta, shared as nat));
    let ghost d1 = dst@;
    append_uvarint(dst, key.len() as u64);
    append_uvarint(dst, value.len() as u64);
    append_uvarint(dst, seq);
    let ghost d4 = dst@;
    if ttl != 0 {
        append_varint(dst, ttl);
    }
    assert(dst@ =~= d4 + ttl_wire(ttl));
    append_slice(dst, key);
    let ghost d6 = dst@;
    if has_vlog {
        append_u64(dst, vlog_off);
    } else {
        append_slice(dst, value);
    }
    proof {
        assert(dst@ =~= d6 + value_wire(has_vlog, vlog_off, value@));
        lemma_chain(
            d0,
            shared_wire(delta, shared as nat),
            crate::encoding::uvarint_bytes(key@.len()),
            crate::encoding::uvarint_bytes(value@.len()),
            crate::encoding::uvarint_bytes(seq as nat),
            ttl_wire(ttl),
            key@,
            value_wire(has_vlog, vlog_off, value@),
        );
    }
}

/// Append an entry. A table in the base layout has no place for another kind
/// than a put or a deletion.
pub fn encode_entry(
    dst: &mut Vec<u8>,
    layout: EntryLayout,
    user_key: &[u8],
    value: &[u8],
    seq: u64,
    ttl: i64,
    kind: u64,
    has_vlog: bool,
    vlog_off: u64,
)
    requires
        !(crate::format::kind_is_tombstone(kind) && has_vlog),
        layout is Base ==> crate::format::flags_suffice(kind),
    ensures
        final(dst)@ == old(dst)@ + entry_wire(layout, false, 0, user_key@, value@, seq, ttl, kind, has_vlog, vlog_off),
{
    let ghost d0 = dst@;
    let (tombstone, single_delete) = kind_to_point_flags(kind);
    let fl = normalized_entry_flags(tombstone, single_delete, ttl != 0, has_vlog);
    append_head(dst, layout, kind, fl);
    let ghost h = head_wire(layout, kind, fl);
    append_tail(dst, false, 0, user_key, value, seq, ttl, has_vlog, vlog_off);
    assert(dst@ =~= d0 + entry_wire(layout, false, 0, user_key@, value@, seq, ttl, kind, has_vlog, vlog_off));
}

/// How many bytes two keys have in common at the front.
pub open spec fn common_len(a: Seq<u8>, b: Seq<u8>) -> nat
    decreases a.len(),
{
    if a.len() == 0 || b.len() == 0 || a[0] != b[0] { 0 } else { 1 + common_len(a.skip(1), b.skip(1)) }
}

pub proof fn lemma_common_len(a: Seq<u8>, b: Seq<u8>)
    ensures
        common_len(a, b) <= a.len(),
        common_len(a, b) <= b.len(),
        a.take(common_len(a, b) as int) == b.take(common_len(a, b) as int),
    decreases a.len(),
{
    let n = common_len(a, b) as int;
    if n > 0 {
        lemma_common_len(a.skip(1), b.skip(1));
        assert forall|i: int| 0 <= i < n implies a[i] == b[i] by {
            if i > 0 {
                assert(a.skip(1).take(n - 1)[i - 1] == b.skip(1).take(n - 1)[i - 1]);
            }
        }
    }
    assert(a.take(n) =~= b.take(n));
}

/// How many bytes two keys have in common at the front.
pub fn shared_prefix_len(a: &[u8], b: &[u8]) -> (r: usize)
    ensures
        r == common_len(a@, b@),
{
    let mut i: usize = 0;
    assert(a@.skip(0) =~= a@);
    assert(b@.skip(0) =~= b@);
    while i < a.len() && i < b.len() && a[i] == b[i]
        invariant
            i <= a@.len(),
            i <= b@.len(),
            common_len(a@, b@) == i + common_len(a@.skip(i as int), b@.skip(i as int)),
        decreases a@.len() - i,
    {
        proof {
            assert(a@.skip(i as int).skip(1) =~= a@.skip(i + 1));
            assert(b@.skip(i as int).skip(1) =~= b@.skip(i + 1));
        }
        i += 1;
    }
    i
}

/// Append a delta entry behind one with the key `prev_key`; how many bytes it
/// shares with that key.
pub fn encode_entry_delta(
    dst: &mut Vec<u8>,
    prev_key: &[u8],
    user_key: &[u8],
    value: &[u8],
    seq: u64,
    ttl: i64,
    kind: u64,
    has_vlog: bool,
    vlog_off: u64,
) -> (r: usize)
    requires
        !(crate::format::kind_is_tombstone(kind) && has_vlog),
    ensures
        r == common_len(prev_key@, user_key@),
        final(dst)@ == old(dst)@ + entry_wire(
            EntryLayout::Extended,
            true,
            r as nat,
            user_key@.skip(r as int),
            value@,
            seq,
            ttl,
            kind,
            has_vlog,
            vlog_off,
        ),
{
    let ghost d0 = dst@;
    let (tombstone, single_delete) = kind_to_point_flags(kind);
    let fl = normalized_entry_flags(tombstone, single_delete, ttl != 0, has_vlog);
    let shared = shared_prefix_len(prev_key, user_key);
    proof {
        lemma_common_len(prev_key@, user_key@);
    }
    append_head(dst, EntryLayout::Extended, kind, fl);
    let (_, suffix) = user_key.split_at(shared);
    assert(suffix@ =~= user_key@.skip(shared as int));
    append_tail(dst, true, shared as u64, suffix, value, seq, ttl, has_vlog, vlog_off);
    assert(dst@ =~= d0 + entry_wire(
        EntryLayout::Extended,
        true,
        shared as nat,
        user_key@.skip(shared as int),
        value@,
        seq,
        ttl,
        kind,
        has_vlog,
        vlog_off,
    ));
    shared
}

// ---------------------------------------------------------------------------
// Laws
// ---------------------------------------------------------------------------

/// What an entry holds that was made from these.
pub open spec fn fields_of(shared: nat, key: Seq<u8>, value: Seq<u8>, seq: u64, ttl: i64, kind: u64, has_vlog: bool, vlog_off: u64) -> Fields {
    Fields {
        kind,
        flags: flags_for(kind, ttl, has_vlog),
        shared: shared as u64,
        key,
        val_len: value.len() as u64,
        seq,
        ttl,
        value: if has_vlog { Seq::empty() } else { value },
        vlog_off: if has_vlog { vlog_off } else { 0 },
    }
}

proof fn lemma_head_round_trip(layout: EntryLayout, kind: u64, ttl: i64, has_vlog: bool, rest: Seq<u8>)
    requires
        crate::format::KIND_PUT <= kind <= crate::format::KIND_MERGE,
        layout is Base ==> crate::format::flags_suffice(kind),
        !(crate::format::kind_is_tombstone(kind) && has_vlog),
    ensures
        parse_head(head_wire(layout, kind, flags_for(kind, ttl, has_vlog)) + rest, layout) == Ok::<_, Fault>(
            (flags_for(kind, ttl, has_vlog), kind, rest),
        ),
{
    let fl = flags_for(kind, ttl, has_vlog);
    let tomb = crate::format::kind_is_tombstone(kind);
    let single = kind == crate::format::KIND_SINGLE_DELETE;
    crate::format::lemma_entry_flags(tomb, single, ttl != 0, has_vlog);
    match layout {
        EntryLayout::Base => {
            let s = seq![fl] + rest;
            assert(s[0] == fl);
            assert(s.skip(1) =~= rest);
        },
        EntryLayout::Extended => {
            let mods = (fl as u64) & MODIFIERS_KNOWN;
            let a = crate::encoding::uvarint_bytes(kind as nat);
            let b = crate::encoding::uvarint_bytes(mods as nat);
            crate::encoding::lemma_cat_assoc(a, b, rest);
            crate::encoding::lemma_uvarint_round_trip(kind, b + rest);
            crate::encoding::lemma_uvarint_round_trip(mods, rest);
            let t: u8 = if tomb { 0x01 } else { 0 };
            let e: u8 = if ttl != 0 { 0x02 } else { 0 };
            let v: u8 = if has_vlog && !tomb { 0x04 } else { 0 };
            let s: u8 = if single { 0x10 } else { 0 };
            assert(mods & !0x06u64 == 0 && (mods as u8) | t | s == fl) by (bit_vector)
                requires
                    mods == (fl as u64) & 0x06u64,
                    fl == t | e | v | s,
                    t == 0x01u8 || t == 0u8,
                    e == 0x02u8 || e == 0u8,
                    v == 0x04u8 || v == 0u8,
                    s == 0x10u8 || s == 0u8,
            ;
        },
    }
}

proof fn lemma_tail_round_trip(
    delta: bool,
    shared: nat,
    key: Seq<u8>,
    value: Seq<u8>,
    seq: u64,
    ttl: i64,
    kind: u64,
    has_vlog: bool,
    vlog_off: u64,
    rest: Seq<u8>,
)
    requires
        shared <= usize::MAX,
        !delta ==> shared == 0,
        key.len() <= u64::MAX,
        value.len() <= u64::MAX,
        !(crate::format::kind_is_tombstone(kind) && has_vlog),
    ensures
        parse_tail(
            tail_wire(delta, shared, key, value, seq, ttl, has_vlog, vlog_off) + rest,
            kind,
            flags_for(kind, ttl, has_vlog),
            delta,
        ) == Some((fields_of(shared, key, value, seq, ttl, kind, has_vlog, vlog_off), rest)),
{
    let fl = flags_for(kind, ttl, has_vlog);
    crate::format::lemma_entry_flags(
        crate::format::kind_is_tombstone(kind),
        kind == crate::format::KIND_SINGLE_DELETE,
        ttl != 0,
        has_vlog,
    );
    let w7 = value_wire(has_vlog, vlog_off, value);
    let w6 = key + w7;
    let w5 = ttl_wire(ttl) + w6;
    let w4 = crate::encoding::uvarint_bytes(seq as nat) + w5;
    let w3 = crate::encoding::uvarint_bytes(value.len()) + w4;
    let w2 = crate::encoding::uvarint_bytes(key.len()) + w3;
    crate::encoding::lemma_cat_assoc(shared_wire(delta, shared), w2, rest);
    crate::encoding::lemma_cat_assoc(crate::encoding::uvarint_bytes(key.len()), w3, rest);
    crate::encoding::lemma_cat_assoc(crate::encoding::uvarint_bytes(value.len()), w4, rest);
    crate::encoding::lemma_cat_assoc(crate::encoding::uvarint_bytes(seq as nat), w5, rest);
    crate::encoding::lemma_cat_assoc(ttl_wire(ttl), w6, rest);
    crate::encoding::lemma_cat_assoc(key, w7, rest);
    if delta {
        crate::encoding::lemma_uvarint_round_trip(shared as u64, w2 + rest);
    } else {
        crate::encoding::lemma_cat_empty(w2 + rest);
    }
    crate::encoding::lemma_uvarint_round_trip(key.len() as u64, w3 + rest);
    crate::encoding::lemma_uvarint_round_trip(value.len() as u64, w4 + rest);
    crate::encoding::lemma_uvarint_round_trip(seq, w5 + rest);
    if ttl != 0 {
        crate::encoding::lemma_varint_round_trip(ttl, w6 + rest);
    } else {
        crate::encoding::lemma_cat_empty(w6 + rest);
    }
    lemma_body_round_trip(shared, key, value, seq, ttl, kind, has_vlog, vlog_off, rest);
}

proof fn lemma_body_round_trip(shared: nat, key: Seq<u8>, value: Seq<u8>, seq: u64, ttl: i64, kind: u64, has_vlog: bool, vlog_off: u64, rest: Seq<u8>)
    requires
        shared <= usize::MAX,
        key.len() <= u64::MAX,
        value.len() <= u64::MAX,
        flags_for(kind, ttl, has_vlog) & flags::HAS_VLOG != 0 <==> has_vlog,
    ensures
        parse_body(
            key + (value_wire(has_vlog, vlog_off, value) + rest),
            kind,
            flags_for(kind, ttl, has_vlog),
            shared as u64,
            key.len() as u64,
            value.len() as u64,
            seq,
            ttl,
        ) == Some((fields_of(shared, key, value, seq, ttl, kind, has_vlog, vlog_off), rest)),
{
    let w7 = value_wire(has_vlog, vlog_off, value);
    let t = w7 + rest;
    let s = key + t;
    assert(s.take(key.len() as int) =~= key);
    assert(s.skip(key.len() as int) =~= t);
    if has_vlog {
        crate::encoding::lemma_pow256();
        crate::encoding::lemma_le_round_trip(vlog_off as nat, 8);
        assert(t.take(8) =~= w7);
        assert(t.skip(8) =~= rest);
    } else {
        assert(t.take(value.len() as int) =~= value);
        assert(t.skip(value.len() as int) =~= rest);
    }
}

/// An entry is read back as it was written, with what follows it untouched.
pub proof fn lemma_entry_round_trip(
    layout: EntryLayout,
    key: Seq<u8>,
    value: Seq<u8>,
    seq: u64,
    ttl: i64,
    kind: u64,
    has_vlog: bool,
    vlog_off: u64,
    rest: Seq<u8>,
)
    requires
        crate::format::KIND_PUT <= kind <= crate::format::KIND_MERGE,
        layout is Base ==> crate::format::flags_suffice(kind),
        !(crate::format::kind_is_tombstone(kind) && has_vlog),
        key.len() <= u64::MAX,
        value.len() <= u64::MAX,
    ensures
        parse_entry(entry_wire(layout, false, 0, key, value, seq, ttl, kind, has_vlog, vlog_off) + rest, layout, false) == Ok::<_, Fault>(
            (fields_of(0, key, value, seq, ttl, kind, has_vlog, vlog_off), rest),
        ),
{
    let fl = flags_for(kind, ttl, has_vlog);
    let h = head_wire(layout, kind, fl);
    let t = tail_wire(false, 0, key, value, seq, ttl, has_vlog, vlog_off);
    crate::encoding::lemma_cat_assoc(h, t, rest);
    lemma_head_round_trip(layout, kind, ttl, has_vlog, t + rest);
    lemma_tail_round_trip(false, 0, key, value, seq, ttl, kind, has_vlog, vlog_off, rest);
}

/// A delta entry behind an entry with the key `prev` is read back with its
/// whole key; under the plain order of bytes, where the keys do not descend.
pub proof fn lemma_delta_round_trip(
    prev: Seq<u8>,
    key: Seq<u8>,
    value: Seq<u8>,
    seq: u64,
    ttl: i64,
    kind: u64,
    has_vlog: bool,
    vlog_off: u64,
    bytewise: bool,
    rest: Seq<u8>,
)
    requires
        crate::format::KIND_PUT <= kind <= crate::format::KIND_MERGE,
        !(crate::format::kind_is_tombstone(kind) && has_vlog),
        key.len() <= usize::MAX,
        value.len() <= u64::MAX,
        bytewise ==> crate::comparator::bytes_le(prev, key),
    ensures
        ({
            let n = common_len(prev, key);
            parse_delta(
                entry_wire(EntryLayout::Extended, true, n, key.skip(n as int), value, seq, ttl, kind, has_vlog, vlog_off) + rest,
                prev,
                bytewise,
            ) == Ok::<_, Fault>((fields_of(n, key.skip(n as int), value, seq, ttl, kind, has_vlog, vlog_off), key, rest))
        }),
{
    let n = common_len(prev, key);
    let suffix = key.skip(n as int);
    lemma_common_len(prev, key);
    let fl = flags_for(kind, ttl, has_vlog);
    let h = head_wire(EntryLayout::Extended, kind, fl);
    let t = tail_wire(true, n, suffix, value, seq, ttl, has_vlog, vlog_off);
    crate::encoding::lemma_cat_assoc(h, t, rest);
    lemma_head_round_trip(EntryLayout::Extended, kind, ttl, has_vlog, t + rest);
    lemma_tail_round_trip(true, n, suffix, value, seq, ttl, kind, has_vlog, vlog_off, rest);
    assert(prev.take(n as int) + suffix =~= key);
}

// ---------------------------------------------------------------------------
// What an accepted entry is
// ---------------------------------------------------------------------------

/// An entry that is accepted is a point entry: of a known kind that is no range
/// delete, with flags in order that say the same as the kind, with a time to
/// live where the flags say so, and with as many bytes of value as it says.
pub proof fn lemma_accepted_entry_is_in_order(s: Seq<u8>, layout: EntryLayout, delta: bool, f: Fields, rest: Seq<u8>)
    requires
        parse_entry(s, layout, delta) == Ok::<(Fields, Seq<u8>), Fault>((f, rest)),
    ensures
        1 <= f.kind <= 4,
        layout is Base ==> f.kind <= 3,
        f.flags & flags::TOMBSTONE != 0 <==> f.kind == 2 || f.kind == 3,
        f.flags & flags::SINGLE_DELETE != 0 <==> f.kind == 3,
        f.flags & flags::HAS_VLOG != 0 ==> f.flags & flags::TOMBSTONE == 0 && f.value.len() == 0,
        f.flags & !flags::KNOWN == 0,
        f.flags & flags::HAS_TTL == 0 ==> f.ttl == 0,
        f.flags & flags::HAS_VLOG == 0 ==> f.value.len() == f.val_len && f.vlog_off == 0,
        !delta ==> f.shared == 0,
{
    let (fl, kind, more) = parse_head(s, layout)->Ok_0;
    assert(f.flags == fl && f.kind == kind);
    if layout is Base {
        assert(fl & 0x10u8 != 0 ==> fl & 0x01u8 != 0) by (bit_vector)
            requires
                !(fl & 0x10u8 != 0 && fl & 0x01u8 == 0),
        ;
    } else {
        let (_, s1) = crate::encoding::parse_uvarint(s).unwrap();
        let (mods, _) = crate::encoding::parse_uvarint(s1).unwrap();
        let t: u8 = if crate::format::kind_is_tombstone(kind) { flags::TOMBSTONE } else { 0 };
        let d: u8 = if kind == crate::format::KIND_SINGLE_DELETE { flags::SINGLE_DELETE } else { 0 };
        assert((fl & 0x01u8 != 0 <==> t == 1) && (fl & 0x10u8 != 0 <==> d == 0x10)) by (bit_vector)
            requires
                fl == (mods as u8) | t | d,
                mods & !6u64 == 0,
                t == 0 || t == 1,
                d == 0 || d == 0x10,
        ;
    }
}

/// A key of which only the end is stored is the beginning of the key before,
/// as long as said, and then the stored end; in the order of bytes keys never
/// go back.
pub proof fn lemma_stored_end_makes_the_key(s: Seq<u8>, prev: Seq<u8>, bytewise: bool, f: Fields, key: Seq<u8>, rest: Seq<u8>)
    requires
        parse_delta(s, prev, bytewise) == Ok::<(Fields, Seq<u8>, Seq<u8>), Fault>((f, key, rest)),
    ensures
        f.shared <= prev.len(),
        key.len() == f.shared + f.key.len(),
        key.take(f.shared as int) == prev.take(f.shared as int),
        key.skip(f.shared as int) == f.key,
        bytewise ==> crate::comparator::bytes_le(prev, key),
{
    assert(key.take(f.shared as int) =~= prev.take(f.shared as int));
    assert(key.skip(f.shared as int) =~= f.key);
}

/// An anchor shares nothing, so that it is read without the key before it.
pub proof fn lemma_anchor_shares_nothing(s: Seq<u8>, prev: Seq<u8>, f: Fields, rest: Seq<u8>)
    requires
        parse_anchor(s) == Ok::<(Fields, Seq<u8>), Fault>((f, rest)),
    ensures
        f.shared == 0,
        parse_delta(s, prev, false) == Ok::<(Fields, Seq<u8>, Seq<u8>), Fault>((f, f.key, rest)),
{
    assert(prev.take(0) + f.key =~= f.key);
}

/// Two keys share what is common to their beginnings, and no more: behind it
/// one of them ends or they differ.
pub proof fn lemma_common_beginning_is_longest(a: Seq<u8>, b: Seq<u8>)
    ensures
        ({
            let n = common_len(a, b) as int;
            &&& n <= a.len() && n <= b.len()
            &&& forall|i: int| 0 <= i < n ==> #[trigger] a[i] == b[i]
            &&& n < a.len() && n < b.len() ==> a[n] != b[n]
        }),
    decreases a.len(),
{
    if a.len() > 0 && b.len() > 0 && a[0] == b[0] {
        let x = a.skip(1);
        let y = b.skip(1);
        lemma_common_beginning_is_longest(x, y);
        let n = common_len(a, b) as int;
        assert forall|i: int| 0 <= i < n implies #[trigger] a[i] == b[i] by {
            if i > 0 {
                assert(x[i - 1] == y[i - 1]);
            }
        }
        if n < a.len() && n < b.len() {
            assert(x[n - 1] != y[n - 1]);
        }
    }
}

} // verus!
