//! The index of a table: for each data block a separator that no entry of the
//! block comes after and every later entry does.
//!
//! ```text
//! flat      min_key | count | (separator | seq | offset | length) x count
//! leaf      1 | count | (separator | seq | offset | length) x count
//! internal  0 | count | (separator | offset | length) x count
//! ```
//!
//! In a tree the root carries the smallest key of the table behind its first
//! byte.

use vstd::prelude::*;

use crate::comparator::Comparator;
use crate::encoding::{append_slice, append_uvarint, bytes_eq, copy_bytes};
use crate::error::OndaError;
use crate::place::compare_places;
use crate::reader::{take_prefixed, take_uvarint};
use crate::sst_entry::shared_prefix_len;
use crate::sst_format::BlockHandle;

verus! {

/// How many entries a node of a tree may have.
pub const BTREE_FANOUT: usize = 256;

/// The separator of one data block, and where the block stands.
#[derive(Debug)]
pub struct IndexEntry {
    pub user_key: Vec<u8>,
    pub seq: u64,
    pub handle: BlockHandle,
}

#[verifier::ext_equal]
pub struct IndexView {
    pub key: Seq<u8>,
    pub seq: u64,
    pub handle: BlockHandle,
}

impl IndexView {
    pub open spec fn place(self) -> crate::place::Place {
        (self.key, self.seq)
    }
}

impl View for IndexEntry {
    type V = IndexView;

    open spec fn view(&self) -> IndexView {
        IndexView { key: self.user_key@, seq: self.seq, handle: self.handle }
    }
}

pub open spec fn index_views(v: Seq<IndexEntry>) -> Seq<IndexView> {
    v.map_values(|e: IndexEntry| e@)
}

// ---------------------------------------------------------------------------
// Separators
// ---------------------------------------------------------------------------

/// The byte in which `a` first differs from `b` can be raised by one and still
/// leave the key before `b`.
pub open spec fn can_raise(a: Seq<u8>, b: Seq<u8>) -> bool {
    let i = crate::sst_entry::common_len(a, b) as int;
    &&& i < a.len() && i < b.len()
    &&& a[i] < 0xff
    &&& a[i] + 1 < b[i] || (a[i] + 1 == b[i] && b.len() > i + 1)
}

/// A short key between `a` and `b`.
pub open spec fn separator_of(a: Seq<u8>, b: Seq<u8>) -> Seq<u8> {
    if can_raise(a, b) {
        let i = crate::sst_entry::common_len(a, b) as int;
        a.take(i).push((a[i] + 1) as u8)
    } else {
        a
    }
}

/// A short separator between two keys: not before `a`, and before `b` where
/// `a` is.
pub fn shortest_separator(a: &[u8], b: &[u8]) -> (r: Vec<u8>)
    ensures
        r@ == separator_of(a@, b@),
{
    let i = shared_prefix_len(a, b);
    proof {
        crate::sst_entry::lemma_common_len(a@, b@);
    }
    if i < a.len() && i < b.len() && a[i] < 0xff {
        let x = a[i] + 1;
        if x < b[i] || (x == b[i] && b.len() - 1 > i) {
            let mut s = copy_bytes(&a[0..i]);
            s.push(x);
            assert(s@ =~= a@.take(i as int).push(x));
            return s;
        }
    }
    copy_bytes(a)
}

proof fn lemma_differ(a: Seq<u8>, b: Seq<u8>)
    requires
        !crate::comparator::bytes_le(b, a),
    ensures
        ({
            let i = crate::sst_entry::common_len(a, b) as int;
            i < b.len() && (i < a.len() ==> a[i] < b[i])
        }),
    decreases a.len(),
{
    if a.len() > 0 && b.len() > 0 && a[0] == b[0] {
        lemma_differ(a.skip(1), b.skip(1));
    }
}

proof fn lemma_raised(a: Seq<u8>, b: Seq<u8>)
    requires
        can_raise(a, b),
    ensures
        !crate::comparator::bytes_le(separator_of(a, b), a),
        !crate::comparator::bytes_le(b, separator_of(a, b)),
    decreases a.len(),
{
    let i = crate::sst_entry::common_len(a, b) as int;
    let s = separator_of(a, b);
    crate::sst_entry::lemma_common_len(a, b);
    if i == 0 {
        assert(s =~= seq![(a[0] + 1) as u8]);
        if s[0] == b[0] {
            assert(s.skip(1).len() == 0);
            assert(b.skip(1).len() > 0);
            assert(!crate::comparator::bytes_le(b.skip(1), s.skip(1)));
        }
    } else {
        assert(a[0] == b[0]);
        assert(can_raise(a.skip(1), b.skip(1)));
        lemma_raised(a.skip(1), b.skip(1));
        assert(a.take(i)[0] == a[0]);
        assert(s.skip(1) =~= separator_of(a.skip(1), b.skip(1))) by {
            assert(a.take(i).skip(1) =~= a.skip(1).take(i - 1));
        }
        assert(s[0] == a[0]);
    }
}

/// A separator of two ascending keys is not before the first and before the
/// second, and no longer than the first.
pub proof fn lemma_separator_brackets(a: Seq<u8>, b: Seq<u8>)
    requires
        !crate::comparator::bytes_le(b, a),
    ensures
        crate::comparator::bytes_le(a, separator_of(a, b)),
        !crate::comparator::bytes_le(b, separator_of(a, b)),
        separator_of(a, b).len() <= a.len(),
        separator_of(a, b) != a ==> !crate::comparator::bytes_le(separator_of(a, b), a),
{
    let i = crate::sst_entry::common_len(a, b) as int;
    crate::sst_entry::lemma_common_len(a, b);
    lemma_differ(a, b);
    crate::comparator::lemma_bytes_total(a, a);
    if can_raise(a, b) {
        lemma_raised(a, b);
        crate::comparator::lemma_bytes_total(a, separator_of(a, b));
    }
}

/// The separator of a block that ends in `(last, seq)` and is followed by the
/// key `next`.
pub open spec fn settled(bytewise: bool, last: Seq<u8>, seq: u64, next: Seq<u8>) -> (Seq<u8>, u64) {
    let s = if bytewise { separator_of(last, next) } else { last };
    (s, if s == last { seq } else { 0 })
}

/// The separator of a block that ends in `(last_key, last_seq)` and is followed
/// by `next_key`. A shortened one matches no stored key, and its sequence is 0.
pub fn settle_separator(bytewise: bool, last_key: &[u8], last_seq: u64, next_key: &[u8]) -> (r: (Vec<u8>, u64))
    ensures
        (r.0@, r.1) == settled(bytewise, last_key@, last_seq, next_key@),
{
    let sep = if bytewise { shortest_separator(last_key, next_key) } else { copy_bytes(last_key) };
    let seq: u64 = if bytes_eq(sep.as_slice(), last_key) { last_seq } else { 0 };
    (sep, seq)
}

/// The separator comes neither before the end of its block nor after the start
/// of the next.
pub proof fn lemma_settled_brackets<C: Comparator>(ord: C, bytewise: bool, last: Seq<u8>, seq: u64, next: Seq<u8>, next_seq: u64)
    requires
        bytewise ==> forall|a: Seq<u8>, b: Seq<u8>| #[trigger] ord.le(a, b) == crate::comparator::bytes_le(a, b),
        crate::place::place_lt(ord, (last, seq), (next, next_seq)),
        next != last,
    ensures
        !crate::place::place_lt(ord, settled(bytewise, last, seq, next), (last, seq)),
        crate::place::place_lt(ord, settled(bytewise, last, seq, next), (next, next_seq)),
{
    crate::comparator::lemma_order(ord);
    assert(ord.le(last, last));
    if bytewise {
        if ord.le(next, last) {
            assert(ord.le(last, next) == crate::comparator::bytes_le(last, next));
            crate::comparator::lemma_bytes_antisymmetric(last, next);
        }
        assert(!crate::comparator::bytes_le(next, last)) by {
            assert(!ord.le(next, last));
        }
        lemma_separator_brackets(last, next);
        let s = separator_of(last, next);
        assert(ord.le(last, s) == crate::comparator::bytes_le(last, s));
        assert(ord.le(next, s) == crate::comparator::bytes_le(next, s));
        assert(ord.le(s, last) == crate::comparator::bytes_le(s, last));
    }
}

// ---------------------------------------------------------------------------
// Search
// ---------------------------------------------------------------------------

/// Whether the separators ascend.
pub open spec fn index_sorted<C: Comparator>(ord: C, v: Seq<IndexView>) -> bool {
    forall|i: int, j: int| 0 <= i < j < v.len() ==> crate::place::place_lt(ord, (#[trigger] v[i]).place(), (#[trigger] v[j]).place())
}

/// Whether exactly the first `n` separators come before a target.
pub open spec fn cuts<C: Comparator>(ord: C, v: Seq<IndexView>, target: crate::place::Place, n: int) -> bool {
    &&& 0 <= n <= v.len()
    &&& forall|k: int| 0 <= k < n ==> crate::place::place_lt(ord, (#[trigger] v[k]).place(), target)
    &&& forall|k: int| n <= k < v.len() ==> !crate::place::place_lt(ord, (#[trigger] v[k]).place(), target)
}

/// The first block whose separator is not before `(user_key, seq)`; the number
/// of blocks where there is none. The separators are expected to ascend.
pub fn find_block<C: Comparator>(ord: &C, index: &Vec<IndexEntry>, user_key: &[u8], seq: u64) -> (r: usize)
    ensures
        r <= index@.len(),
        r > 0 ==> crate::place::place_lt(*ord, index@[r - 1]@.place(), (user_key@, seq)),
        r < index@.len() ==> !crate::place::place_lt(*ord, index@[r as int]@.place(), (user_key@, seq)),
        index_sorted(*ord, index_views(index@)) ==> cuts(*ord, index_views(index@), (user_key@, seq), r as int),
{
    let ghost t = (user_key@, seq);
    let mut lo: usize = 0;
    let mut hi: usize = index.len();
    while lo < hi
        invariant
            lo <= hi <= index@.len(),
            t == (user_key@, seq),
            lo > 0 ==> crate::place::place_lt(*ord, index@[lo - 1]@.place(), t),
            hi < index@.len() ==> !crate::place::place_lt(*ord, index@[hi as int]@.place(), t),
        decreases hi - lo,
    {
        let mid = lo + (hi - lo) / 2;
        let e = &index[mid];
        if compare_places(ord, e.user_key.as_slice(), e.seq, user_key, seq).is_lt() {
            lo = mid + 1;
        } else {
            hi = mid;
        }
    }
    proof {
        let v = index_views(index@);
        if index_sorted(*ord, v) {
            crate::place::lemma_place_order(*ord, true);
            assert forall|k: int| 0 <= k < lo implies crate::place::place_lt(*ord, (#[trigger] v[k]).place(), t) by {
                assert(v[lo - 1] == index@[lo - 1]@);
                if k < lo - 1 {
                    assert(crate::place::leads(*ord, true, v[k].place(), v[lo - 1].place()));
                    assert(crate::place::leads(*ord, true, v[lo - 1].place(), t));
                    assert(crate::place::leads(*ord, true, v[k].place(), t));
                }
            }
            assert forall|k: int| lo <= k < v.len() implies !crate::place::place_lt(*ord, (#[trigger] v[k]).place(), t) by {
                assert(v[lo as int] == index@[lo as int]@);
                if k > lo && crate::place::place_lt(*ord, v[k].place(), t) {
                    assert(crate::place::leads(*ord, true, v[lo as int].place(), v[k].place()));
                    assert(crate::place::leads(*ord, true, v[k].place(), t));
                    assert(crate::place::leads(*ord, true, v[lo as int].place(), t));
                }
            }
        }
    }
    lo
}

// ---------------------------------------------------------------------------
// Entries as bytes
// ---------------------------------------------------------------------------

pub open spec fn numbers_wire(h: BlockHandle) -> Seq<u8> {
    crate::encoding::uvarint_bytes(h.offset as nat) + crate::encoding::uvarint_bytes(h.length as nat)
}

pub open spec fn index_entry_wire(e: IndexView) -> Seq<u8> {
    crate::edit_codec::bytes_wire(e.key) + (crate::encoding::uvarint_bytes(e.seq as nat) + numbers_wire(e.handle))
}

pub open spec fn index_entries_wire(v: Seq<IndexView>) -> Seq<u8>
    decreases v.len(),
{
    if v.len() == 0 { Seq::empty() } else { index_entries_wire(v.drop_last()) + index_entry_wire(v.last()) }
}

pub open spec fn parse_handle(s: Seq<u8>) -> Option<(BlockHandle, Seq<u8>)> {
    match crate::encoding::parse_uvarint(s) {
        None => None,
        Some((offset, s)) => match crate::encoding::parse_uvarint(s) {
            None => None,
            Some((length, s)) => Some((BlockHandle { offset, length }, s)),
        },
    }
}

pub open spec fn parse_index_entry(s: Seq<u8>) -> Option<(IndexView, Seq<u8>)> {
    match crate::edit_codec::parse_bytes(s) {
        None => None,
        Some((key, s)) => match crate::encoding::parse_uvarint(s) {
            None => None,
            Some((seq, s)) => match parse_handle(s) {
                None => None,
                Some((handle, s)) => Some((IndexView { key, seq, handle }, s)),
            },
        },
    }
}

/// `n` entries at the front of `s`; what follows them does not matter.
pub open spec fn parse_index_entries(s: Seq<u8>, n: nat) -> Option<Seq<IndexView>>
    decreases n,
{
    if n == 0 {
        Some(Seq::empty())
    } else {
        match parse_index_entry(s) {
            None => None,
            Some((e, rest)) => match parse_index_entries(rest, (n - 1) as nat) {
                None => None,
                Some(more) => Some(seq![e] + more),
            },
        }
    }
}

pub fn take_handle<'a>(p: &'a [u8]) -> (r: Option<(BlockHandle, &'a [u8])>)
    ensures
        match r {
            Some((h, rest)) => parse_handle(p@) == Some((h, rest@)),
            None => parse_handle(p@) is None,
        },
{
    match take_uvarint(p) {
        None => None,
        Some((offset, p1)) => match take_uvarint(p1) {
            None => None,
            Some((length, p2)) => Some((BlockHandle { offset, length }, p2)),
        },
    }
}

fn take_index_entry<'a>(p: &'a [u8]) -> (r: Option<(IndexEntry, &'a [u8])>)
    ensures
        match r {
            Some((e, rest)) => parse_index_entry(p@) == Some((e@, rest@)),
            None => parse_index_entry(p@) is None,
        },
{
    match take_prefixed(p) {
        None => None,
        Some((key, p1)) => match take_uvarint(p1) {
            None => None,
            Some((seq, p2)) => match take_handle(p2) {
                None => None,
                Some((handle, p3)) => Some((IndexEntry { user_key: copy_bytes(key), seq, handle }, p3)),
            },
        },
    }
}

pub fn take_index_entries(p: &[u8], count: u64) -> (r: Option<Vec<IndexEntry>>)
    ensures
        match r {
            Some(v) => parse_index_entries(p@, count as nat) == Some(index_views(v@)),
            None => parse_index_entries(p@, count as nat) is None,
        },
{
    let mut cur = p;
    let mut out: Vec<IndexEntry> = Vec::new();
    let mut i: u64 = 0;
    proof {
        if let Some(v) = parse_index_entries(cur@, count as nat) {
            assert(index_views(out@) + v =~= v);
        }
    }
    while i < count
        invariant
            i <= count,
            parse_index_entries(p@, count as nat) == (match parse_index_entries(cur@, (count - i) as nat) {
                None => None,
                Some(v) => Some(index_views(out@) + v),
            }),
        decreases count - i,
    {
        match take_index_entry(cur) {
            None => {
                return None;
            },
            Some((e, rest)) => {
                let ghost o0 = out@;
                let ghost ev = e@;
                out.push(e);
                proof {
                    assert(index_views(out@) =~= index_views(o0).push(ev));
                    if let Some(v) = parse_index_entries(rest@, (count - i - 1) as nat) {
                        assert(index_views(o0) + (seq![ev] + v) =~= index_views(out@) + v);
                    }
                }
                cur = rest;
            },
        }
        i += 1;
    }
    assert(index_views(out@) + Seq::<IndexView>::empty() =~= index_views(out@));
    Some(out)
}

pub fn append_handle(b: &mut Vec<u8>, h: BlockHandle)
    ensures
        final(b)@ == old(b)@ + numbers_wire(h),
{
    let ghost b0 = b@;
    append_uvarint(b, h.offset);
    append_uvarint(b, h.length);
    assert(b@ =~= b0 + numbers_wire(h));
}

fn append_index_entry(b: &mut Vec<u8>, e: &IndexEntry)
    ensures
        final(b)@ == old(b)@ + index_entry_wire(e@),
{
    let ghost b0 = b@;
    append_uvarint(b, e.user_key.len() as u64);
    append_slice(b, e.user_key.as_slice());
    append_uvarint(b, e.seq);
    append_handle(b, e.handle);
    assert(b@ =~= b0 + index_entry_wire(e@));
}

/// Append the entries `from..to`.
pub fn append_index_entries(b: &mut Vec<u8>, v: &Vec<IndexEntry>, from: usize, to: usize)
    requires
        from <= to <= v@.len(),
    ensures
        final(b)@ == old(b)@ + index_entries_wire(index_views(v@).subrange(from as int, to as int)),
{
    let ghost b0 = b@;
    let ghost w = index_views(v@);
    let mut i = from;
    proof {
        assert(w.subrange(from as int, from as int) =~= Seq::empty());
        crate::encoding::lemma_cat_empty(b0);
    }
    while i < to
        invariant
            from <= i <= to <= v@.len(),
            w == index_views(v@),
            b@ == b0 + index_entries_wire(w.subrange(from as int, i as int)),
        decreases to - i,
    {
        append_index_entry(b, &v[i]);
        proof {
            let part = w.subrange(from as int, i + 1);
            assert(part.drop_last() =~= w.subrange(from as int, i as int));
            assert(part.last() == v@[i as int]@);
            crate::encoding::lemma_cat_assoc(b0, index_entries_wire(part.drop_last()), index_entry_wire(part.last()));
        }
        i += 1;
    }
}

proof fn lemma_index_entry_trip(e: IndexView, rest: Seq<u8>)
    requires
        e.key.len() <= u64::MAX,
    ensures
        parse_index_entry(index_entry_wire(e) + rest) == Some((e, rest)),
{
    let k = crate::edit_codec::bytes_wire(e.key);
    let s = crate::encoding::uvarint_bytes(e.seq as nat);
    let o = crate::encoding::uvarint_bytes(e.handle.offset as nat);
    let l = crate::encoding::uvarint_bytes(e.handle.length as nat);
    assert(index_entry_wire(e) + rest =~= k + (s + (o + (l + rest))));
    crate::edit_trip::lemma_bytes_trip(e.key, s + (o + (l + rest)));
    crate::encoding::lemma_uvarint_round_trip(e.seq, o + (l + rest));
    crate::encoding::lemma_uvarint_round_trip(e.handle.offset, l + rest);
    crate::encoding::lemma_uvarint_round_trip(e.handle.length, rest);
}

proof fn lemma_index_entries_front(x: IndexView, more: Seq<IndexView>)
    ensures
        index_entries_wire(seq![x] + more) == index_entry_wire(x) + index_entries_wire(more),
    decreases more.len(),
{
    let v = seq![x] + more;
    if more.len() == 0 {
        assert(v.drop_last() =~= Seq::empty());
        assert(v.last() == x);
        assert(index_entries_wire(v.drop_last()) =~= Seq::empty());
        assert(index_entries_wire(more) =~= Seq::empty());
        crate::encoding::lemma_cat_empty(index_entry_wire(x));
    } else {
        lemma_index_entries_front(x, more.drop_last());
        assert(v.drop_last() =~= seq![x] + more.drop_last());
        assert(v.last() == more.last());
        crate::encoding::lemma_cat_assoc(index_entry_wire(x), index_entries_wire(more.drop_last()), index_entry_wire(more.last()));
    }
}

pub open spec fn keys_fit(v: Seq<IndexView>) -> bool {
    forall|i: int| 0 <= i < v.len() ==> (#[trigger] v[i]).key.len() <= u64::MAX
}

pub proof fn lemma_index_entries_trip(v: Seq<IndexView>, rest: Seq<u8>)
    requires
        keys_fit(v),
    ensures
        parse_index_entries(index_entries_wire(v) + rest, v.len()) == Some(v),
    decreases v.len(),
{
    if v.len() == 0 {
        assert(v =~= Seq::empty());
    } else {
        let x = v[0];
        let more = v.skip(1);
        assert(v =~= seq![x] + more);
        assert(keys_fit(more)) by {
            assert forall|i: int| 0 <= i < more.len() implies (#[trigger] more[i]).key.len() <= u64::MAX by {
                assert(more[i] == v[i + 1]);
            }
        }
        lemma_index_entries_front(x, more);
        lemma_index_entries_trip(more, rest);
        crate::encoding::lemma_cat_assoc(index_entry_wire(x), index_entries_wire(more), rest);
        lemma_index_entry_trip(x, index_entries_wire(more) + rest);
    }
}

// ---------------------------------------------------------------------------
// The flat index
// ---------------------------------------------------------------------------

fn corrupt() -> (r: OndaError)
    ensures
        r is Corruption,
{
    OndaError::Corruption(crate::text::join3("sst: ", "malformed index", ""))
}

/// A flat index as bytes.
pub open spec fn index_wire(min_key: Seq<u8>, v: Seq<IndexView>) -> Seq<u8> {
    crate::edit_codec::bytes_wire(min_key) + (crate::encoding::uvarint_bytes(v.len()) + index_entries_wire(v))
}

/// A flat index.
pub fn encode_index(min_key: &[u8], index: &Vec<IndexEntry>) -> (r: Vec<u8>)
    ensures
        r@ == index_wire(min_key@, index_views(index@)),
{
    let ghost v = index_views(index@);
    let mut b: Vec<u8> = Vec::new();
    append_uvarint(&mut b, min_key.len() as u64);
    append_slice(&mut b, min_key);
    append_uvarint(&mut b, index.len() as u64);
    let ghost b0 = b@;
    append_index_entries(&mut b, index, 0, index.len());
    proof {
        assert(v.subrange(0, v.len() as int) =~= v);
        assert(b@ =~= index_wire(min_key@, v));
    }
    b
}

/// The smallest key and the entries of a flat index.
pub open spec fn parse_index(s: Seq<u8>) -> Option<(Seq<u8>, Seq<IndexView>)> {
    match crate::edit_codec::parse_bytes(s) {
        None => None,
        Some((min, s)) => match crate::encoding::parse_uvarint(s) {
            None => None,
            Some((n, s)) => match parse_index_entries(s, n as nat) {
                None => None,
                Some(v) => Some((min, v)),
            },
        },
    }
}

/// Read a flat index: the smallest key, and the entries.
pub fn decode_index(p: &[u8]) -> (r: Result<(Vec<u8>, Vec<IndexEntry>), OndaError>)
    ensures
        match parse_index(p@) {
            Some((min, v)) => r matches Ok((m, x)) && m@ == min && index_views(x@) == v,
            None => r is Err && r->Err_0 is Corruption,
        },
{
    let (min, p1) = match take_prefixed(p) {
        None => {
            return Err(corrupt());
        },
        Some(x) => x,
    };
    let (count, p2) = match take_uvarint(p1) {
        None => {
            return Err(corrupt());
        },
        Some(x) => x,
    };
    match take_index_entries(p2, count) {
        None => Err(corrupt()),
        Some(v) => Ok((copy_bytes(min), v)),
    }
}

/// The largest key of a table: the last separator, or the smallest key where
/// there is none.
pub open spec fn max_key_of(min: Seq<u8>, v: Seq<IndexView>) -> Seq<u8> {
    if v.len() > 0 { v.last().key } else { min }
}

/// The largest key of a table.
pub fn max_key(min_key: &[u8], index: &Vec<IndexEntry>) -> (r: Vec<u8>)
    ensures
        r@ == max_key_of(min_key@, index_views(index@)),
{
    let n = index.len();
    if n > 0 {
        assert(index_views(index@).last() == index@[n - 1]@);
        copy_bytes(index[n - 1].user_key.as_slice())
    } else {
        copy_bytes(min_key)
    }
}

/// A flat index is read back as it was written.
pub proof fn lemma_index_round_trip(min_key: Seq<u8>, v: Seq<IndexView>)
    requires
        min_key.len() <= u64::MAX,
        v.len() <= u64::MAX,
        keys_fit(v),
    ensures
        parse_index(index_wire(min_key, v)) == Some((min_key, v)),
{
    let w = index_entries_wire(v);
    let n = crate::encoding::uvarint_bytes(v.len());
    crate::edit_trip::lemma_bytes_trip(min_key, n + w);
    crate::encoding::lemma_uvarint_round_trip(v.len() as u64, w);
    lemma_index_entries_trip(v, Seq::empty());
    crate::encoding::lemma_cat_empty(w);
}

/// A separator is as short as the first difference allows: where the byte
/// there leaves room below the next key, it ends with that byte raised by one;
/// where it leaves none, it is the last key itself.
pub proof fn lemma_separator_is_short(a: Seq<u8>, b: Seq<u8>, i: int)
    requires
        0 <= i < a.len(),
        i < b.len(),
        forall|k: int| 0 <= k < i ==> #[trigger] a[k] == b[k],
        a[i] != b[i],
    ensures
        a[i] + 1 < b[i] ==> separator_of(a, b) == a.take(i).push((a[i] + 1) as u8),
        a[i] + 1 == b[i] && b.len() > i + 1 ==> separator_of(a, b) == a.take(i).push(b[i]),
        a[i] + 1 == b[i] && b.len() == i + 1 ==> separator_of(a, b) == a,
        a[i] > b[i] ==> separator_of(a, b) == a,
{
    lemma_common_is(a, b, i);
}

proof fn lemma_common_is(a: Seq<u8>, b: Seq<u8>, i: int)
    requires
        0 <= i < a.len(),
        i < b.len(),
        forall|k: int| 0 <= k < i ==> #[trigger] a[k] == b[k],
        a[i] != b[i],
    ensures
        crate::sst_entry::common_len(a, b) == i,
    decreases i,
{
    if i > 0 {
        assert(a[0] == b[0]);
        let x = a.skip(1);
        let y = b.skip(1);
        assert forall|k: int| 0 <= k < i - 1 implies #[trigger] x[k] == y[k] by {
            assert(a[k + 1] == b[k + 1]);
        }
        lemma_common_is(x, y, i - 1);
    }
}

/// A separator that is the last key keeps its sequence, and a shortened one,
/// which no stored key is, has the last of all; in an order other than that of
/// bytes nothing is shortened.
pub proof fn lemma_settled_sequence(bytewise: bool, last: Seq<u8>, seq: u64, next: Seq<u8>)
    ensures
        settled(bytewise, last, seq, next).0 == last ==> settled(bytewise, last, seq, next).1 == seq,
        settled(bytewise, last, seq, next).0 != last ==> settled(bytewise, last, seq, next).1 == 0,
        !bytewise ==> settled(bytewise, last, seq, next).0 == last,
        bytewise ==> settled(bytewise, last, seq, next).0 == separator_of(last, next),
{
}

} // verus!
