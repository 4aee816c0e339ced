//! Data blocks: a run of entries, then the offsets of the restart anchors and
//! their count.
//!
//! ```text
//! entries | restart offset(4) x count | count(4)
//! ```
//!
//! An anchor stands on its own: it can be read without the entries before it.

use vstd::prelude::*;

use crate::comparator::Comparator;
use crate::encoding::{append_slice, copy_bytes, read_u32_at};
use crate::error::OndaError;
use crate::format::{Fault, KIND_PUT};
use crate::place::compare_places;
use crate::sst_entry::{decode_delta_anchor, decode_entry, decode_entry_delta, DecEntry, EntryLayout, Fields};

verus! {

/// How the entries of a table are read.
#[derive(Debug, Clone, Copy)]
pub struct Codec {
    pub layout: EntryLayout,
    /// Whether keys are stored as what they do not share with the key before.
    pub delta: bool,
    /// Whether keys are in the plain order of bytes.
    pub bytewise: bool,
}

/// An entry where it was read.
#[verifier::ext_equal]
pub struct Placed {
    pub off: int,
    pub next: int,
    /// The whole key.
    pub key: Seq<u8>,
    pub fields: Fields,
}

impl Placed {
    pub open spec fn place(self) -> crate::place::Place {
        (self.key, self.fields.seq)
    }
}

/// The entry at `off`, behind an entry with the key `prev`.
pub open spec fn parse_at(c: Codec, raw: Seq<u8>, off: int, prev: Seq<u8>) -> Result<Placed, Fault> {
    if off < 0 || off >= raw.len() {
        Err(Fault::Corrupt)
    } else if c.delta {
        match crate::sst_entry::parse_delta(raw.skip(off), prev, c.bytewise) {
            Err(f) => Err(f),
            Ok((f, key, rest)) => Ok(Placed { off, next: raw.len() - rest.len(), key, fields: f }),
        }
    } else {
        match crate::sst_entry::parse_entry(raw.skip(off), c.layout, false) {
            Err(f) => Err(f),
            Ok((f, rest)) => Ok(Placed { off, next: raw.len() - rest.len(), key: f.key, fields: f }),
        }
    }
}

/// The entries from `off` on, behind an entry with the key `prev`.
pub open spec fn walk(c: Codec, raw: Seq<u8>, off: int, prev: Seq<u8>) -> Result<Seq<Placed>, Fault>
    decreases raw.len() - off,
{
    if off >= raw.len() {
        Ok(Seq::empty())
    } else {
        match parse_at(c, raw, off, prev) {
            Err(f) => Err(f),
            Ok(p) => if p.next <= off {
                Err(Fault::Corrupt)
            } else {
                match walk(c, raw, p.next, p.key) {
                    Err(f) => Err(f),
                    Ok(more) => Ok(seq![p] + more),
                }
            },
        }
    }
}

/// The entries of a block.
pub open spec fn entries_of(c: Codec, raw: Seq<u8>) -> Result<Seq<Placed>, Fault> {
    walk(c, raw, 0, Seq::empty())
}

// ---------------------------------------------------------------------------
// The trailer
// ---------------------------------------------------------------------------

/// The offset of an anchor.
pub open spec fn restart_at(restarts: Seq<u8>, i: int) -> int {
    crate::sst_format::u32_at(restarts, 4 * i) as int
}

pub open spec fn restart_count(restarts: Seq<u8>) -> int {
    restarts.len() as int / 4
}

/// Whether a delta block of `n` bytes of entries may have these anchors.
pub open spec fn restarts_valid(n: int, restarts: Seq<u8>) -> bool {
    if n == 0 {
        restart_count(restarts) == 0
    } else {
        &&& restart_count(restarts) > 0
        &&& restart_at(restarts, 0) == 0
        &&& forall|i: int| 0 <= i < restart_count(restarts) ==> #[trigger] restart_at(restarts, i) < n
        &&& forall|i: int, j: int|
            0 <= i < j < restart_count(restarts) ==> #[trigger] restart_at(restarts, i) < #[trigger] restart_at(restarts, j)
    }
}

fn corrupt(what: &str) -> (r: OndaError)
    ensures
        r is Corruption,
{
    OndaError::Corruption(crate::text::join3("sst: delta block ", what, ""))
}

/// Check the anchors of a delta block with `entries_len` bytes of entries: the
/// first stands at the front, and they ascend and stay within the entries.
pub fn validate_delta_restarts(entries_len: usize, restarts: &[u8]) -> (r: Result<(), OndaError>)
    ensures
        r is Ok <==> restarts_valid(entries_len as int, restarts@),
        r is Err ==> r->Err_0 is Corruption,
{
    let len = restarts.len();
    let count = len / 4;
    if entries_len == 0 {
        if count == 0 {
            return Ok(());
        }
        return Err(corrupt("is empty but has restart anchors"));
    }
    if count == 0 {
        return Err(corrupt("has no restart anchors"));
    }
    let mut i: usize = 0;
    let mut last: u32 = 0;
    while i < count
        invariant
            i <= count,
            len == restarts@.len(),
            count == len / 4,
            entries_len > 0,
            i > 0 ==> restart_at(restarts@, 0) == 0 && last == restart_at(restarts@, i - 1),
            forall|k: int| 0 <= k < i ==> #[trigger] restart_at(restarts@, k) < entries_len,
            forall|k: int, j: int| 0 <= k < j < i ==> #[trigger] restart_at(restarts@, k) < #[trigger] restart_at(restarts@, j),
        decreases count - i,
    {
        let off = read_u32_at(restarts, i * 4);
        assert(off == restart_at(restarts@, i as int));
        if i == 0 && off != 0 {
            return Err(corrupt("does not start with an anchor at offset 0"));
        }
        if off as usize >= entries_len {
            return Err(corrupt("has a restart offset past its entries"));
        }
        if i > 0 && off <= last {
            proof {
                assert(restart_at(restarts@, i - 1) >= restart_at(restarts@, i as int));
            }
            return Err(corrupt("has non-increasing restart offsets"));
        }
        last = off;
        i += 1;
    }
    Ok(())
}

/// Entries and anchors of a block.
pub open spec fn split_parts(raw: Seq<u8>, delta: bool) -> Option<(Seq<u8>, Seq<u8>)> {
    if raw.len() < 4 {
        None
    } else {
        let count = crate::sst_format::u32_at(raw, raw.len() - 4) as int;
        let end = raw.len() - 4 * count - 4;
        if end < 0 {
            None
        } else {
            let entries = raw.take(end);
            let restarts = raw.subrange(end, raw.len() - 4);
            if delta && !restarts_valid(end, restarts) { None } else { Some((entries, restarts)) }
        }
    }
}

/// Split a block into its entries and the offsets of its anchors.
pub fn split_block<'a>(raw: &'a [u8], delta: bool) -> (r: Result<(&'a [u8], &'a [u8]), OndaError>)
    ensures
        match split_parts(raw@, delta) {
            Some((e, s)) => r matches Ok((entries, restarts)) && entries@ == e && restarts@ == s,
            None => r is Err && r->Err_0 is Corruption,
        },
{
    let n = raw.len();
    if n < 4 {
        return Err(corrupt("is shorter than its trailer"));
    }
    let count = read_u32_at(raw, n - 4);
    let trailer = 4 * (count as u64) + 4;
    if trailer > n as u64 {
        return Err(corrupt("is shorter than its trailer"));
    }
    let end = n - trailer as usize;
    let entries = &raw[0..end];
    let restarts = &raw[end..n - 4];
    assert(entries@ =~= raw@.take(end as int));
    if delta {
        validate_delta_restarts(end, restarts)?;
    }
    Ok((entries, restarts))
}

// ---------------------------------------------------------------------------
// Reading entries
// ---------------------------------------------------------------------------

/// Read the entry at `off` behind one with the key `key`, which becomes the key
/// of this one. An error leaves it alone.
pub fn decode_step(c: Codec, raw: &[u8], off: usize, key: &mut Vec<u8>) -> (r: Result<(DecEntry, usize), OndaError>)
    ensures
        r is Err ==> final(key)@ == old(key)@,
        match parse_at(c, raw@, off as int, old(key)@) {
            Ok(p) => r matches Ok((d, next)) && crate::sst_entry::locates(d, raw@, p.fields, p.next) && next == p.next && off < next
                <= raw@.len() && final(key)@ == p.key && (!c.delta ==> d.key_shared == 0),
            Err(f) => r is Err && crate::format::reports(r->Err_0, f),
        },
{
    if c.delta {
        return decode_entry_delta(raw, off, key, c.bytewise);
    }
    let (d, next) = decode_entry(raw, c.layout, off)?;
    let k = d.user_key(raw);
    key.clear();
    append_slice(key, k);
    assert(key@ =~= k@);
    Ok((d, next))
}

/// The entry at `off`, where an anchor stands.
pub open spec fn parse_anchor_at(c: Codec, raw: Seq<u8>, off: int) -> Result<crate::place::Place, Fault> {
    if off >= raw.len() {
        Err(Fault::Corrupt)
    } else if c.delta {
        match crate::sst_entry::parse_anchor(raw.skip(off)) {
            Err(f) => Err(f),
            Ok((f, _)) => Ok((f.key, f.seq)),
        }
    } else {
        match crate::sst_entry::parse_entry(raw.skip(off), c.layout, false) {
            Err(f) => Err(f),
            Ok((f, _)) => Ok((f.key, f.seq)),
        }
    }
}

/// Whether the anchor at `off` comes before `(user_key, seq)`.
pub(crate) fn anchor_is_before<C: Comparator>(ord: &C, c: Codec, raw: &[u8], off: usize, user_key: &[u8], seq: u64) -> (r: Result<bool, OndaError>)
    ensures
        match parse_anchor_at(c, raw@, off as int) {
            Ok(p) => r == Ok::<bool, OndaError>(crate::place::place_lt(*ord, p, (user_key@, seq))),
            Err(f) => r is Err && crate::format::reports(r->Err_0, f),
        },
{
    let (d, _) = if c.delta { decode_delta_anchor(raw, off)? } else { decode_entry(raw, c.layout, off)? };
    let o = compare_places(ord, d.user_key(raw), d.seq, user_key, seq);
    Ok(o.is_lt())
}

/// Search `count` anchors in ascending order: how many come before a target.
/// `anchor_is_lt` tells it of each.
pub fn restart_lower_bound<F: Fn(usize) -> Result<bool, OndaError>>(count: usize, anchor_is_lt: F) -> (r: Result<usize, OndaError>)
    requires
        forall|i: usize| i < count ==> #[trigger] call_requires(anchor_is_lt, (i,)),
    ensures
        match r {
            Ok(n) => {
                &&& n <= count
                &&& n > 0 ==> call_ensures(anchor_is_lt, ((n - 1) as usize,), Ok(true))
                &&& n < count ==> call_ensures(anchor_is_lt, (n,), Ok(false))
            },
            Err(e) => exists|i: usize| i < count && #[trigger] call_ensures(anchor_is_lt, (i,), Err(e)),
        },
{
    let mut lo: usize = 0;
    let mut hi: usize = count;
    while lo < hi
        invariant
            lo <= hi <= count,
            forall|i: usize| i < count ==> #[trigger] call_requires(anchor_is_lt, (i,)),
            lo > 0 ==> call_ensures(anchor_is_lt, ((lo - 1) as usize,), Ok(true)),
            hi < count ==> call_ensures(anchor_is_lt, (hi,), Ok(false)),
        decreases hi - lo,
    {
        let mid = lo + (hi - lo) / 2;
        match anchor_is_lt(mid) {
            Err(e) => {
                return Err(e);
            },
            Ok(b) => {
                if b {
                    lo = mid + 1;
                } else {
                    hi = mid;
                }
            },
        }
    }
    Ok(lo)
}

/// Whether `n` anchors come before a target, so far as their neighbours tell.
pub open spec fn bounds<C: Comparator>(ord: C, c: Codec, raw: Seq<u8>, restarts: Seq<u8>, target: crate::place::Place, n: int) -> bool {
    &&& 0 <= n <= restart_count(restarts)
    &&& n > 0 ==> (parse_anchor_at(c, raw, restart_at(restarts, n - 1)) matches Ok(p) && crate::place::place_lt(ord, p, target))
    &&& n < restart_count(restarts) ==> (parse_anchor_at(c, raw, restart_at(restarts, n)) matches Ok(p) && !crate::place::place_lt(ord, p, target))
}

/// The fault of an anchor, where it has one.
pub open spec fn anchor_fault(c: Codec, raw: Seq<u8>, restarts: Seq<u8>, i: int) -> Option<Fault> {
    match parse_anchor_at(c, raw, restart_at(restarts, i)) {
        Ok(_) => None,
        Err(f) => Some(f),
    }
}

/// Whether an anchor cannot be read, for the reason that `e` gives.
pub open spec fn anchor_fails(c: Codec, raw: Seq<u8>, restarts: Seq<u8>, i: int, e: OndaError) -> bool {
    0 <= i < restart_count(restarts) && (anchor_fault(c, raw, restarts, i) matches Some(f) && crate::format::reports(e, f))
}

/// Whether a scan for a target may start at `off`.
pub open spec fn scan_start<C: Comparator>(ord: C, c: Codec, raw: Seq<u8>, restarts: Seq<u8>, target: crate::place::Place, off: int) -> bool {
    if restarts.len() < 8 {
        off == 0
    } else {
        exists|n: int| #[trigger] bounds(ord, c, raw, restarts, target, n) && off == (if n > 0 { restart_at(restarts, n - 1) } else { 0 })
    }
}

/// Where to scan from for `(user_key, read_seq)`: at the last anchor before it.
/// Fewer than two anchors are not searched.
pub fn restart_scan_offset<C: Comparator>(ord: &C, c: Codec, raw: &[u8], restarts: &[u8], user_key: &[u8], read_seq: u64) -> (r: Result<
    usize,
    OndaError,
>)
    ensures
        restarts@.len() < 8 ==> r is Ok,
        match r {
            Ok(off) => scan_start(*ord, c, raw@, restarts@, (user_key@, read_seq), off as int),
            Err(e) => exists|i: int| #[trigger] anchor_fails(c, raw@, restarts@, i, e),
        },
        (forall|i: int| 0 <= i < restart_count(restarts@) ==> #[trigger] anchor_fault(c, raw@, restarts@, i) is None) ==> r is Ok,
{
    let len = restarts.len();
    if len < 8 {
        return Ok(0);
    }
    let count = len / 4;
    let probe = |i: usize| -> (b: Result<bool, OndaError>)
        requires
            i < restart_count(restarts@),
        ensures
            match parse_anchor_at(c, raw@, restart_at(restarts@, i as int)) {
                Ok(p) => b == Ok::<bool, OndaError>(crate::place::place_lt(*ord, p, (user_key@, read_seq))),
                Err(f) => b is Err && crate::format::reports(b->Err_0, f),
            },
    {
        let off = read_u32_at(restarts, i * 4);
        anchor_is_before(ord, c, raw, off as usize, user_key, read_seq)
    };
    match restart_lower_bound(count, probe) {
        Err(e) => {
            proof {
                let i = choose|i: usize| i < count && #[trigger] call_ensures(probe, (i,), Err(e));
                assert(anchor_fails(c, raw@, restarts@, i as int, e));
            }
            Err(e)
        },
        Ok(n) => {
            proof {
                assert(bounds(*ord, c, raw@, restarts@, (user_key@, read_seq), n as int));
            }
            if n > 0 {
                Ok(read_u32_at(restarts, (n - 1) * 4) as usize)
            } else {
                Ok(0)
            }
        },
    }
}

// ---------------------------------------------------------------------------
// Point reads
// ---------------------------------------------------------------------------

/// Where the value of an entry is.
#[derive(Debug)]
pub enum StoredValue {
    Inline(Vec<u8>),
    /// In the value log, in a frame at this offset; so many bytes long.
    Logged(u64, u64),
}

/// What a table holds of a key.
#[derive(Debug)]
pub struct PointHit {
    /// The value, where there is one to be seen.
    pub value: Option<StoredValue>,
    pub seq: u64,
    /// Whether the table holds a version of the key.
    pub found: bool,
    /// Whether that version is a deletion or has expired.
    pub deleted: bool,
    pub kind: u64,
}

pub open spec fn value_of(f: Fields) -> StoredValueView {
    if f.flags & crate::flags::HAS_VLOG != 0 {
        StoredValueView::Logged(f.vlog_off, (f.val_len as usize) as u64)
    } else {
        StoredValueView::Inline(f.value)
    }
}

#[verifier::ext_equal]
pub enum StoredValueView {
    Inline(Seq<u8>),
    Logged(u64, u64),
}

impl View for StoredValue {
    type V = StoredValueView;

    open spec fn view(&self) -> StoredValueView {
        match *self {
            StoredValue::Inline(v) => StoredValueView::Inline(v@),
            StoredValue::Logged(off, len) => StoredValueView::Logged(off, len),
        }
    }
}

/// Whether `r` tells of this entry at the time `now`, or of none.
pub open spec fn tells(r: PointHit, p: Option<Placed>, now: i64) -> bool {
    match p {
        None => r.value is None && r.seq == 0 && !r.found && !r.deleted && r.kind == KIND_PUT,
        Some(e) => {
            let gone = e.fields.flags & crate::flags::TOMBSTONE != 0 || (e.fields.ttl != 0 && e.fields.ttl <= now);
            &&& r.found
            &&& r.deleted == gone
            &&& r.seq == e.fields.seq
            &&& r.kind == e.fields.kind
            &&& gone ==> r.value is None
            &&& !gone ==> (r.value matches Some(v) && v@ == value_of(e.fields))
        },
    }
}

/// The first entry from `off` on that is not before `(key, seq)`, where it is
/// an entry of that key.
pub open spec fn find_point<C: Comparator>(ord: C, c: Codec, raw: Seq<u8>, off: int, prev: Seq<u8>, target: crate::place::Place) -> Result<
    Option<Placed>,
    Fault,
>
    decreases raw.len() - off,
{
    if off >= raw.len() {
        Ok(None)
    } else {
        match parse_at(c, raw, off, prev) {
            Err(f) => Err(f),
            Ok(p) => if p.next <= off {
                Err(Fault::Corrupt)
            } else if crate::place::place_lt(ord, p.place(), target) {
                find_point(ord, c, raw, p.next, p.key, target)
            } else if crate::comparator::same_key(ord, p.key, target.0) {
                Ok(Some(p))
            } else {
                Ok(None)
            },
        }
    }
}

/// Scan a block from `offset` for the newest version of `user_key` that
/// `read_seq` can see.
pub fn scan_point_entry<C: Comparator>(ord: &C, c: Codec, raw: &[u8], offset: usize, user_key: &[u8], read_seq: u64, now: i64) -> (r: Result<
    PointHit,
    OndaError,
>)
    ensures
        match find_point(*ord, c, raw@, offset as int, Seq::empty(), (user_key@, read_seq)) {
            Ok(p) => r is Ok && tells(r->Ok_0, p, now),
            Err(f) => r is Err && crate::format::reports(r->Err_0, f),
        },
{
    let mut off = offset;
    let mut key: Vec<u8> = Vec::new();
    assert(key@ =~= Seq::empty());
    while off < raw.len()
        invariant
            find_point(*ord, c, raw@, offset as int, Seq::empty(), (user_key@, read_seq)) == find_point(
                *ord,
                c,
                raw@,
                off as int,
                key@,
                (user_key@, read_seq),
            ),
        decreases raw@.len() - off,
    {
        let (d, next) = decode_step(c, raw, off, &mut key)?;
        let o = compare_places(ord, key.as_slice(), d.seq, user_key, read_seq);
        if o.is_lt() {
            off = next;
        } else {
            proof {
                crate::comparator::lemma_order(*ord);
            }
            if !ord.compare(key.as_slice(), user_key).is_eq() {
                return Ok(PointHit { value: None, seq: 0, found: false, deleted: false, kind: KIND_PUT });
            }
            if d.tombstone() || (d.ttl != 0 && d.ttl <= now) {
                return Ok(PointHit { value: None, seq: d.seq, found: true, deleted: true, kind: d.kind as u64 });
            }
            let value = if d.has_vlog() {
                StoredValue::Logged(d.vlog_off, d.val_len as u64)
            } else {
                StoredValue::Inline(copy_bytes(d.inline_value(raw)))
            };
            return Ok(PointHit { value: Some(value), seq: d.seq, found: true, deleted: false, kind: d.kind as u64 });
        }
    }
    Ok(PointHit { value: None, seq: 0, found: false, deleted: false, kind: KIND_PUT })
}

// ---------------------------------------------------------------------------
// Laws
// ---------------------------------------------------------------------------

/// Whether the entries ascend.
pub open spec fn ascending<C: Comparator>(ord: C, es: Seq<Placed>) -> bool {
    forall|i: int, j: int| 0 <= i < j < es.len() ==> crate::place::place_lt(ord, (#[trigger] es[i]).place(), (#[trigger] es[j]).place())
}

/// Whether `off` is where an entry stands that can be read on its own.
pub open spec fn is_anchor(c: Codec, es: Seq<Placed>, i: int, off: int) -> bool {
    0 <= i < es.len() && es[i].off == off && (c.delta ==> es[i].fields.shared == 0)
}

pub open spec fn has_anchor(c: Codec, es: Seq<Placed>, off: int) -> bool {
    exists|i: int| is_anchor(c, es, i, off)
}

/// Whether a block holds ascending entries and its anchors are entries that
/// can be read on their own.
pub open spec fn block_ok<C: Comparator>(ord: C, c: Codec, raw: Seq<u8>, restarts: Seq<u8>) -> bool {
    match entries_of(c, raw) {
        Err(_) => false,
        Ok(es) => {
            &&& ascending(ord, es)
            &&& forall|k: int| 0 <= k < restart_count(restarts) ==> has_anchor(c, es, #[trigger] restart_at(restarts, k))
        },
    }
}

/// What was read stands where it was read from.
pub proof fn lemma_walk_at(c: Codec, raw: Seq<u8>, off: int, prev: Seq<u8>, j: int)
    requires
        walk(c, raw, off, prev) matches Ok(es) && 0 <= j < es.len(),
    ensures
        ({
            let es = walk(c, raw, off, prev)->Ok_0;
            let p = if j == 0 { prev } else { es[j - 1].key };
            &&& es[j].off == (if j == 0 { off } else { es[j - 1].next })
            &&& off <= es[j].off < es[j].next
            &&& parse_at(c, raw, es[j].off, p) == Ok::<Placed, Fault>(es[j])
            &&& walk(c, raw, es[j].off, p) == Ok::<Seq<Placed>, Fault>(es.skip(j))
            &&& j == es.len() - 1 ==> es[j].next >= raw.len()
        }),
    decreases j,
{
    let es = walk(c, raw, off, prev)->Ok_0;
    if j == 0 {
        assert(es.skip(0) =~= es);
        if es.len() == 1 {
            let more = walk(c, raw, es[0].next, es[0].key)->Ok_0;
            assert(es =~= seq![es[0]] + more);
            assert(more.len() == 0);
            if es[0].next < raw.len() {
                assert(more.len() > 0);
            }
        }
    } else {
        let more = walk(c, raw, es[0].next, es[0].key)->Ok_0;
        assert(es =~= seq![es[0]] + more);
        lemma_walk_at(c, raw, es[0].next, es[0].key, j - 1);
        assert(more[j - 1] == es[j]);
        assert(more.skip(j - 1) =~= es.skip(j));
        if j >= 2 {
            assert(more[j - 2] == es[j - 1]);
        }
    }
}

/// The first entry that is not before a target.
pub open spec fn first_not_before<C: Comparator>(ord: C, es: Seq<Placed>, target: crate::place::Place, i: int) -> bool {
    &&& 0 <= i <= es.len()
    &&& forall|k: int| 0 <= k < i ==> crate::place::place_lt(ord, (#[trigger] es[k]).place(), target)
    &&& i < es.len() ==> !crate::place::place_lt(ord, es[i].place(), target)
}

/// A point read of a readable block finds the first entry that is not before
/// its target, where it is one of the key it asked for.
pub proof fn lemma_find_is_first<C: Comparator>(ord: C, c: Codec, raw: Seq<u8>, off: int, prev: Seq<u8>, target: crate::place::Place, i: int)
    requires
        walk(c, raw, off, prev) matches Ok(es) && first_not_before(ord, es, target, i),
    ensures
        ({
            let es = walk(c, raw, off, prev)->Ok_0;
            find_point(ord, c, raw, off, prev, target) == Ok::<Option<Placed>, Fault>(
                if i < es.len() && crate::comparator::same_key(ord, es[i].key, target.0) { Some(es[i]) } else { None },
            )
        }),
    decreases i,
{
    let es = walk(c, raw, off, prev)->Ok_0;
    if off < raw.len() {
        let more = walk(c, raw, es[0].next, es[0].key)->Ok_0;
        assert(es =~= seq![es[0]] + more);
        if i > 0 {
            assert forall|k: int| 0 <= k < i - 1 implies crate::place::place_lt(ord, (#[trigger] more[k]).place(), target) by {
                assert(more[k] == es[k + 1]);
            }
            if i < es.len() {
                assert(more[i - 1] == es[i]);
            }
            lemma_find_is_first(ord, c, raw, es[0].next, es[0].key, target, i - 1);
        }
    }
}

proof fn lemma_skip_front<C: Comparator>(ord: C, c: Codec, raw: Seq<u8>, target: crate::place::Place, i: int)
    requires
        entries_of(c, raw) matches Ok(es) && 0 <= i < es.len() && (forall|k: int|
            0 <= k < i ==> crate::place::place_lt(ord, (#[trigger] es[k]).place(), target)),
    ensures
        ({
            let es = entries_of(c, raw)->Ok_0;
            find_point(ord, c, raw, 0, Seq::empty(), target) == find_point(
                ord,
                c,
                raw,
                es[i].off,
                if i == 0 { Seq::empty() } else { es[i - 1].key },
                target,
            )
        }),
    decreases i,
{
    let es = entries_of(c, raw)->Ok_0;
    lemma_walk_at(c, raw, 0, Seq::empty(), i);
    if i > 0 {
        lemma_skip_front(ord, c, raw, target, i - 1);
        lemma_walk_at(c, raw, 0, Seq::empty(), i - 1);
    }
}

/// An entry that shares nothing is the same entry whatever stands before it.
pub proof fn lemma_anchor_stands_alone(c: Codec, raw: Seq<u8>, off: int, prev: Seq<u8>)
    requires
        parse_at(c, raw, off, prev) matches Ok(p) && (c.delta ==> p.fields.shared == 0),
    ensures
        parse_at(c, raw, off, Seq::empty()) == parse_at(c, raw, off, prev),
        parse_anchor_at(c, raw, off) == Ok::<crate::place::Place, Fault>(parse_at(c, raw, off, prev)->Ok_0.place()),
{
    if c.delta {
        let f = parse_at(c, raw, off, prev)->Ok_0.fields;
        assert(prev.take(0) + f.key =~= f.key);
        assert(Seq::<u8>::empty().take(0) + f.key =~= f.key);
    }
}

/// Scanning from an anchor that comes before the target, or from the front,
/// finds what a scan of the whole block would.
pub proof fn lemma_anchor_skips_nothing<C: Comparator>(ord: C, c: Codec, raw: Seq<u8>, restarts: Seq<u8>, target: crate::place::Place, n: int)
    requires
        block_ok(ord, c, raw, restarts),
        bounds(ord, c, raw, restarts, target, n),
    ensures
        find_point(ord, c, raw, if n > 0 { restart_at(restarts, n - 1) } else { 0 }, Seq::empty(), target) == find_point(
            ord,
            c,
            raw,
            0,
            Seq::empty(),
            target,
        ),
{
    if n > 0 {
        let es = entries_of(c, raw)->Ok_0;
        let off = restart_at(restarts, n - 1);
        assert(has_anchor(c, es, off));
        let i = choose|i: int| is_anchor(c, es, i, off);
        lemma_walk_at(c, raw, 0, Seq::empty(), i);
        let prev = if i == 0 { Seq::empty() } else { es[i - 1].key };
        lemma_anchor_stands_alone(c, raw, off, prev);
        crate::place::lemma_place_order(ord, true);
        assert(crate::place::place_lt(ord, es[i].place(), target));
        assert forall|k: int| 0 <= k < i implies crate::place::place_lt(ord, (#[trigger] es[k]).place(), target) by {
            assert(crate::place::place_lt(ord, es[k].place(), es[i].place()));
            assert(crate::place::leads(ord, true, es[k].place(), es[i].place()));
            assert(crate::place::leads(ord, true, es[i].place(), target));
            assert(crate::place::leads(ord, true, es[k].place(), target));
        }
        lemma_skip_front(ord, c, raw, target, i);
    }
}

/// In a block that is as it should be, every anchor can be read.
pub proof fn lemma_anchors_read<C: Comparator>(ord: C, c: Codec, raw: Seq<u8>, restarts: Seq<u8>, k: int)
    requires
        block_ok(ord, c, raw, restarts),
        0 <= k < restart_count(restarts),
    ensures
        anchor_fault(c, raw, restarts, k) is None,
{
    let es = entries_of(c, raw)->Ok_0;
    let off = restart_at(restarts, k);
    assert(has_anchor(c, es, off));
    let i = choose|i: int| is_anchor(c, es, i, off);
    lemma_walk_at(c, raw, 0, Seq::empty(), i);
    lemma_anchor_stands_alone(c, raw, off, if i == 0 { Seq::empty() } else { es[i - 1].key });
}

/// Whether a block of these entries and anchors may answer so.
pub open spec fn answers<C: Comparator>(
    ord: C,
    c: Codec,
    raw: Seq<u8>,
    restarts: Seq<u8>,
    target: crate::place::Place,
    now: i64,
    r: Result<PointHit, OndaError>,
) -> bool {
    match r {
        Ok(h) => exists|off: int| #[trigger]
            scan_start(ord, c, raw, restarts, target, off) && (find_point(ord, c, raw, off, Seq::empty(), target) matches Ok(p) && tells(h, p, now)),
        Err(e) => {
            ||| exists|i: int| #[trigger] anchor_fails(c, raw, restarts, i, e)
            ||| exists|off: int| #[trigger]
                scan_start(ord, c, raw, restarts, target, off) && (find_point(ord, c, raw, off, Seq::empty(), target) matches Err(f)
                    && crate::format::reports(e, f))
        },
    }
}

/// What a block holds of a key, at the version that `read_seq` can see.
pub fn point_in_block<C: Comparator>(ord: &C, c: Codec, block: &[u8], user_key: &[u8], read_seq: u64, now: i64) -> (r: Result<
    PointHit,
    OndaError,
>)
    ensures
        match split_parts(block@, c.delta) {
            None => r is Err && r->Err_0 is Corruption,
            Some((raw, restarts)) => {
                &&& answers(*ord, c, raw, restarts, (user_key@, read_seq), now, r)
                &&& block_ok(*ord, c, raw, restarts) ==> r is Ok && tells(
                    r->Ok_0,
                    find_point(*ord, c, raw, 0, Seq::empty(), (user_key@, read_seq))->Ok_0,
                    now,
                )
            },
        },
{
    let (raw, restarts) = split_block(block, c.delta)?;
    proof {
        if block_ok(*ord, c, raw@, restarts@) {
            assert forall|k: int| 0 <= k < restart_count(restarts@) implies #[trigger] anchor_fault(c, raw@, restarts@, k) is None by {
                lemma_anchors_read(*ord, c, raw@, restarts@, k);
            }
        }
    }
    let off = restart_scan_offset(ord, c, raw, restarts, user_key, read_seq)?;
    proof {
        if block_ok(*ord, c, raw@, restarts@) {
            let t = (user_key@, read_seq);
            if restarts@.len() >= 8 {
                let n = choose|n: int| #[trigger]
                    bounds(*ord, c, raw@, restarts@, t, n) && off == (if n > 0 { restart_at(restarts@, n - 1) } else { 0 });
                lemma_anchor_skips_nothing(*ord, c, raw@, restarts@, t, n);
            }
            let es = entries_of(c, raw@)->Ok_0;
            let i = lemma_some_first(*ord, es, t);
            lemma_find_is_first(*ord, c, raw@, 0, Seq::empty(), t, i);
        }
    }
    scan_point_entry(ord, c, raw, off, user_key, read_seq, now)
}

/// There is a first entry that is not before a target, or there is none at all.
pub proof fn lemma_some_first<C: Comparator>(ord: C, es: Seq<Placed>, target: crate::place::Place) -> (i: int)
    ensures
        first_not_before(ord, es, target, i),
    decreases es.len(),
{
    if es.len() == 0 {
        0
    } else {
        let front = es.drop_last();
        let i = lemma_some_first(ord, front, target);
        assert forall|k: int| 0 <= k < i implies crate::place::place_lt(ord, (#[trigger] es[k]).place(), target) by {
            assert(front[k] == es[k]);
        }
        if i < front.len() {
            assert(front[i] == es[i]);
            i
        } else if crate::place::place_lt(ord, es.last().place(), target) {
            i + 1
        } else {
            i
        }
    }
}

/// A block is its entries, its anchors and how many anchors there are, with
/// nothing between them.
pub proof fn lemma_block_is_its_parts(raw: Seq<u8>, delta: bool, entries: Seq<u8>, restarts: Seq<u8>)
    requires
        split_parts(raw, delta) == Some((entries, restarts)),
    ensures
        raw == entries + restarts + crate::encoding::le_bytes((restarts.len() / 4) as nat, 4),
        restarts.len() % 4 == 0,
        delta && entries.len() == 0 ==> restarts.len() == 0,
        delta && entries.len() > 0 ==> restarts.len() >= 4 && restart_at(restarts, 0) == 0,
        delta ==> forall|i: int, j: int|
            0 <= i < j < restarts.len() / 4 ==> #[trigger] restart_at(restarts, i) < #[trigger] restart_at(restarts, j),
        delta ==> forall|i: int| 0 <= i < restarts.len() / 4 ==> #[trigger] restart_at(restarts, i) < entries.len(),
{
    let n = raw.len() - 4;
    let last = raw.subrange(n, n + 4);
    crate::encoding::lemma_pow256();
    crate::encoding::lemma_le_value_bytes(last);
    crate::encoding::lemma_le_value_bound(last);
    assert(raw =~= entries + restarts + last);
}

/// A read that tells of nothing tells nothing, and one that tells of an entry
/// tells its sequence and kind, whether it is gone, and where its value is.
pub proof fn lemma_hit_tells_the_entry(r: PointHit, e: Placed, now: i64)
    requires
        tells(r, Some(e), now),
        crate::format::flags_ok(e.fields.flags),
    ensures
        r.found,
        r.seq == e.fields.seq,
        r.kind == e.fields.kind,
        r.deleted <==> e.fields.flags & 0x01u8 != 0 || (e.fields.ttl != 0 && e.fields.ttl <= now),
        r.value is Some <==> !r.deleted,
        !r.deleted && e.fields.flags & 0x04u8 == 0 ==> (r.value matches Some(StoredValue::Inline(v)) && v@ == e.fields.value),
        !r.deleted && e.fields.flags & 0x04u8 != 0 ==> (r.value matches Some(StoredValue::Logged(off, len)) && off == e.fields.vlog_off && (
        e.fields.val_len <= usize::MAX ==> len == e.fields.val_len)),
{
}

/// A block without prefix sharing comes apart where its end says how many
/// anchors there are and it is long enough to hold them; one that holds nothing
/// but a count of none is empty.
pub proof fn lemma_when_a_block_comes_apart(raw: Seq<u8>)
    ensures
        split_parts(raw, false) is Some <==> raw.len() >= 4 && 4 * crate::sst_format::u32_at(raw, raw.len() - 4) + 4 <= raw.len(),
        split_parts(raw, true) is Some ==> split_parts(raw, false) == split_parts(raw, true),
{
}

/// A scan starts at the front of a block with fewer than two anchors, and else
/// at the last anchor before the target, or at the front where none is.
pub proof fn lemma_where_a_scan_starts<C: Comparator>(
    ord: C,
    c: Codec,
    raw: Seq<u8>,
    restarts: Seq<u8>,
    target: crate::place::Place,
    off: int,
)
    requires
        scan_start(ord, c, raw, restarts, target, off),
    ensures
        restart_count(restarts) < 2 ==> off == 0,
        restart_count(restarts) >= 2 ==> exists|n: int|
            #![trigger bounds(ord, c, raw, restarts, target, n)]
            {
                &&& 0 <= n <= restart_count(restarts)
                &&& bounds(ord, c, raw, restarts, target, n)
                &&& n == 0 ==> off == 0
                &&& n > 0 ==> off == restart_at(restarts, n - 1) && (parse_anchor_at(c, raw, off) matches Ok(p) && crate::place::place_lt(
                    ord,
                    p,
                    target,
                ))
                &&& n < restart_count(restarts) ==> (parse_anchor_at(c, raw, restart_at(restarts, n)) matches Ok(p) && !crate::place::place_lt(
                    ord,
                    p,
                    target,
                ))
            },
{
}

} // verus!
