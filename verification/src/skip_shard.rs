//! A shard of the memtable whose keys are in the plain order of bytes, kept in
//! a `crossbeam_skiplist::SkipMap`.

use crossbeam_skiplist::SkipMap;
use vstd::prelude::*;

use crate::comparator::KeyComparator;
use crate::encoding::copy_bytes;
use crate::place::{Item, Payload, Place};

verus! {

/// A user key and the complement of a sequence number: in the order of
/// tuples, the newest version of a key comes first.
type SkipKey = (Vec<u8>, u64);

/// Value, expiry and flags.
type SkipVal = (Vec<u8>, i64, u8);

#[verifier::external_type_specification]
#[verifier::external_body]
#[verifier::reject_recursive_types(K)]
#[verifier::reject_recursive_types(V)]
pub struct ExSkipMap<K, V>(crossbeam_skiplist::SkipMap<K, V>);

/// What a `SkipMap` holds.
pub uninterp spec fn skip_items(m: SkipMap<(Vec<u8>, u64), (Vec<u8>, i64, u8)>) -> Map<(Seq<u8>, u64), (Seq<u8>, i64, u8)>;

/// The order of tuples: first the bytes, then the number.
pub open spec fn pair_lt(a: (Seq<u8>, u64), b: (Seq<u8>, u64)) -> bool {
    (a.0 != b.0 && crate::comparator::bytes_le(a.0, b.0)) || (a.0 == b.0 && a.1 < b.1)
}

/// Whether `r` is the element of `m` that passes `keep` and comes first, in
/// ascending or descending order.
pub open spec fn is_pick(
    m: Map<(Seq<u8>, u64), (Seq<u8>, i64, u8)>,
    ascending: bool,
    keep: spec_fn((Seq<u8>, u64)) -> bool,
    r: Option<((Vec<u8>, u64), (Vec<u8>, i64, u8))>,
) -> bool {
    match r {
        None => forall|k: (Seq<u8>, u64)| #[trigger] m.dom().contains(k) ==> !keep(k),
        Some((k, v)) => {
            let q = (k.0@, k.1);
            &&& m.dom().contains(q)
            &&& m[q] == (v.0@, v.1, v.2)
            &&& keep(q)
            &&& forall|x: (Seq<u8>, u64)| #[trigger]
                m.dom().contains(x) && keep(x) ==> (if ascending { !pair_lt(x, q) } else { !pair_lt(q, x) })
        },
    }
}

/// Whether `r` is the least or the greatest element of `m`.
pub open spec fn is_end(
    m: Map<(Seq<u8>, u64), (Seq<u8>, i64, u8)>,
    ascending: bool,
    r: Option<((Vec<u8>, u64), (Vec<u8>, i64, u8))>,
) -> bool {
    is_pick(m, ascending, |k: (Seq<u8>, u64)| true, r)
}

/// `SkipMap::new`: a map that holds nothing.
#[verifier::external_body]
fn skip_new() -> (r: SkipMap<SkipKey, SkipVal>)
    ensures
        skip_items(r).dom().is_empty(),
{
    SkipMap::new()
}

/// `SkipMap::insert`: the value stands under the key, in place of one that
/// stood there. The map is taken by `&mut`, though the call does not need it:
/// nobody else changes it meanwhile.
#[verifier::external_body]
fn skip_insert(m: &mut SkipMap<SkipKey, SkipVal>, k: SkipKey, v: SkipVal)
    ensures
        skip_items(*final(m)) == skip_items(*old(m)).insert((k.0@, k.1), (v.0@, v.1, v.2)),
{
    m.insert(k, v);
}

/// `SkipMap::front`: the entry with the smallest key, copied out.
#[verifier::external_body]
fn skip_front(m: &SkipMap<SkipKey, SkipVal>) -> (r: Option<(SkipKey, SkipVal)>)
    ensures
        is_end(skip_items(*m), true, r),
{
    match m.front() {
        None => None,
        Some(e) => Some((e.key().clone(), e.value().clone())),
    }
}

/// `SkipMap::back`: the entry with the largest key, copied out.
#[verifier::external_body]
fn skip_back(m: &SkipMap<SkipKey, SkipVal>) -> (r: Option<(SkipKey, SkipVal)>)
    ensures
        is_end(skip_items(*m), false, r),
{
    match m.back() {
        None => None,
        Some(e) => Some((e.key().clone(), e.value().clone())),
    }
}

/// Where a search starts: at a key, or just past it.
enum Edge {
    At(SkipKey),
    Past(SkipKey),
}

/// Whether `k` is at or after the edge, going up.
spec fn above_edge(e: Edge, k: (Seq<u8>, u64)) -> bool {
    match e {
        Edge::At(p) => !pair_lt(k, (p.0@, p.1)),
        Edge::Past(p) => pair_lt((p.0@, p.1), k),
    }
}

/// Whether `k` is at or after the edge, going down.
spec fn below_edge(e: Edge, k: (Seq<u8>, u64)) -> bool {
    match e {
        Edge::At(p) => !pair_lt((p.0@, p.1), k),
        Edge::Past(p) => pair_lt(k, (p.0@, p.1)),
    }
}

/// Whether `r` is the lowest element of `m` at or above the edge.
spec fn is_lower(m: Map<(Seq<u8>, u64), (Seq<u8>, i64, u8)>, edge: Edge, r: Option<(SkipKey, SkipVal)>) -> bool {
    is_pick(m, true, |k: (Seq<u8>, u64)| above_edge(edge, k), r)
}

/// Whether `r` is the highest element of `m` at or below the edge.
spec fn is_upper(m: Map<(Seq<u8>, u64), (Seq<u8>, i64, u8)>, edge: Edge, r: Option<(SkipKey, SkipVal)>) -> bool {
    is_pick(m, false, |k: (Seq<u8>, u64)| below_edge(edge, k), r)
}

/// `SkipMap::lower_bound`: the lowest element at or above the bound, copied
/// out.
#[verifier::external_body]
fn skip_lower(m: &SkipMap<SkipKey, SkipVal>, edge: &Edge) -> (r: Option<(SkipKey, SkipVal)>)
    ensures
        is_lower(skip_items(*m), *edge, r),
{
    let bound = match edge {
        Edge::At(k) => std::ops::Bound::Included(k),
        Edge::Past(k) => std::ops::Bound::Excluded(k),
    };
    match m.lower_bound(bound) {
        None => None,
        Some(e) => Some((e.key().clone(), e.value().clone())),
    }
}

/// `SkipMap::upper_bound`: the highest element at or below the bound, copied
/// out.
#[verifier::external_body]
fn skip_upper(m: &SkipMap<SkipKey, SkipVal>, edge: &Edge) -> (r: Option<(SkipKey, SkipVal)>)
    ensures
        is_upper(skip_items(*m), *edge, r),
{
    let bound = match edge {
        Edge::At(k) => std::ops::Bound::Included(k),
        Edge::Past(k) => std::ops::Bound::Excluded(k),
    };
    match m.upper_bound(bound) {
        None => None,
        Some(e) => Some((e.key().clone(), e.value().clone())),
    }
}

/// The key under which a place is stored.
pub open spec fn stored_key(p: Place) -> (Seq<u8>, u64) {
    (p.0, (u64::MAX - p.1) as u64)
}

/// Versions of keys in the plain order of bytes.
pub struct SkipShard {
    map: SkipMap<(Vec<u8>, u64), (Vec<u8>, i64, u8)>,
}

proof fn lemma_stored_order<C: KeyComparator>(ord: C)
    requires
        forall|a: Seq<u8>, b: Seq<u8>| #[trigger] ord.le(a, b) == crate::comparator::bytes_le(a, b),
    ensures
        forall|a: Place, b: Place| #[trigger] crate::place::place_lt(ord, a, b) == pair_lt(stored_key(a), stored_key(b)),
{
    assert forall|a: Place, b: Place| #[trigger] crate::place::place_lt(ord, a, b) == pair_lt(stored_key(a), stored_key(b)) by {
        if a.0 != b.0 {
            crate::comparator::lemma_bytes_total(a.0, b.0);
            assert(ord.le(b.0, a.0) == crate::comparator::bytes_le(b.0, a.0));
            if crate::comparator::bytes_le(b.0, a.0) && crate::comparator::bytes_le(a.0, b.0) {
                crate::comparator::lemma_bytes_antisymmetric(a.0, b.0);
            }
        } else {
            crate::comparator::lemma_bytes_total(a.0, b.0);
            assert(ord.le(b.0, a.0) == crate::comparator::bytes_le(b.0, a.0));
        }
    }
}

fn to_item(r: (SkipKey, SkipVal)) -> (i: Item)
    ensures
        stored_key(i.place()) == (r.0.0@, r.0.1),
        i.payload() == (Payload { value: r.1.0@, ttl: r.1.1, flags: r.1.2 }),
{
    let ((key, c), (value, ttl, flags)) = r;
    Item { key, seq: u64::MAX - c, value, ttl, flags }
}

impl SkipShard {
    pub closed spec fn raw(self) -> Map<(Seq<u8>, u64), (Seq<u8>, i64, u8)> {
        skip_items(self.map)
    }

    /// What is stored at each place.
    pub open spec fn contents(self) -> Map<Place, Payload> {
        Map::new(
            |p: Place| self.raw().dom().contains(stored_key(p)),
            |p: Place| {
                let v = self.raw()[stored_key(p)];
                Payload { value: v.0, ttl: v.1, flags: v.2 }
            },
        )
    }

    pub fn new() -> (r: SkipShard)
        ensures
            r.contents() == Map::<Place, Payload>::empty(),
    {
        let r = SkipShard { map: skip_new() };
        assert(r.contents() =~= Map::<Place, Payload>::empty());
        r
    }

    /// Store a version.
    pub fn put(&mut self, key: &[u8], value: Vec<u8>, seq: u64, ttl: i64, flags: u8)
        ensures
            final(self).contents() == old(self).contents().insert((key@, seq), Payload { value: value@, ttl, flags }),
    {
        let k: SkipKey = (copy_bytes(key), u64::MAX - seq);
        let ghost sk = (k.0@, k.1);
        skip_insert(&mut self.map, k, (value, ttl, flags));
        proof {
            assert(sk == stored_key((key@, seq)));
            assert forall|p: Place| stored_key(p) == sk implies p == (key@, seq) by {}
            assert(self.contents() =~= old(self).contents().insert((key@, seq), Payload { value: value@, ttl, flags }));
        }
    }

    /// The first version in one direction.
    pub fn end<C: KeyComparator>(&self, ord: &C, forward: bool) -> (r: Option<Item>)
        requires
            forall|a: Seq<u8>, b: Seq<u8>| #[trigger] ord.le(a, b) == crate::comparator::bytes_le(a, b),
        ensures
            crate::place::first_item(*ord, forward, self.contents(), self.contents().dom(), r),
    {
        let found = if forward { skip_front(&self.map) } else { skip_back(&self.map) };
        self.picked(ord, forward, Ghost(|k: (Seq<u8>, u64)| true), Ghost(self.contents().dom()), found)
    }

    /// The first version in one direction that comes after `(key, seq)`, which
    /// itself counts where `inclusive`.
    pub fn find<C: KeyComparator>(&self, ord: &C, forward: bool, key: &[u8], seq: u64, inclusive: bool) -> (r: Option<Item>)
        requires
            forall|a: Seq<u8>, b: Seq<u8>| #[trigger] ord.le(a, b) == crate::comparator::bytes_le(a, b),
        ensures
            crate::place::first_item(
                *ord,
                forward,
                self.contents(),
                crate::place::beyond(*ord, forward, self.contents().dom(), (key@, seq), inclusive),
                r,
            ),
    {
        let k: SkipKey = (copy_bytes(key), u64::MAX - seq);
        let ghost p = (key@, seq);
        proof {
            lemma_stored_order(*ord);
            crate::place::lemma_places(*ord, forward);
            assert(stored_key(p) == (k.0@, k.1));
        }
        let edge = if inclusive { Edge::At(k) } else { Edge::Past(k) };
        let found = if forward { skip_lower(&self.map, &edge) } else { skip_upper(&self.map, &edge) };
        let ghost keep = if forward { |x: (Seq<u8>, u64)| above_edge(edge, x) } else { |x: (Seq<u8>, u64)| below_edge(edge, x) };
        proof {
            let s = crate::place::beyond(*ord, forward, self.contents().dom(), p, inclusive);
            assert forall|x: Place| #[trigger] s.contains(x) <==> self.contents().dom().contains(x) && keep(stored_key(x)) by {
                assert(crate::place::place_lt(*ord, x, p) == pair_lt(stored_key(x), stored_key(p)));
                assert(crate::place::place_lt(*ord, p, x) == pair_lt(stored_key(p), stored_key(x)));
                assert(x == p || crate::place::leads(*ord, forward, x, p) || crate::place::leads(*ord, forward, p, x));
                assert(crate::place::leads(*ord, forward, p, x) ==> !crate::place::leads(*ord, forward, x, p));
                assert(!crate::place::leads(*ord, forward, p, p));
            }
        }
        self.picked(
            ord,
            forward,
            Ghost(keep),
            Ghost(crate::place::beyond(*ord, forward, self.contents().dom(), (key@, seq), inclusive)),
            found,
        )
    }

    fn picked<C: KeyComparator>(
        &self,
        ord: &C,
        forward: bool,
        Ghost(keep): Ghost<spec_fn((Seq<u8>, u64)) -> bool>,
        Ghost(s): Ghost<Set<Place>>,
        found: Option<(SkipKey, SkipVal)>,
    ) -> (r: Option<Item>)
        requires
            forall|a: Seq<u8>, b: Seq<u8>| #[trigger] ord.le(a, b) == crate::comparator::bytes_le(a, b),
            is_pick(self.raw(), forward, keep, found),
            forall|x: Place| #[trigger] s.contains(x) <==> self.contents().dom().contains(x) && keep(stored_key(x)),
        ensures
            crate::place::first_item(*ord, forward, self.contents(), s, r),
    {
        proof {
            lemma_stored_order(*ord);
        }
        match found {
            None => {
                assert forall|x: Place| !#[trigger] s.contains(x) by {
                    if s.contains(x) {
                        assert(self.raw().dom().contains(stored_key(x)));
                    }
                }
                None
            },
            Some(e) => {
                let item = to_item(e);
                let ghost q = item.place();
                proof {
                    assert(s.contains(q));
                    assert forall|x: Place| #[trigger] s.contains(x) implies !crate::place::leads(*ord, forward, x, q) by {
                        assert(self.raw().dom().contains(stored_key(x)));
                        assert(crate::place::place_lt(*ord, x, q) == pair_lt(stored_key(x), stored_key(q)));
                        assert(crate::place::place_lt(*ord, q, x) == pair_lt(stored_key(q), stored_key(x)));
                    }
                }
                Some(item)
            },
        }
    }
}

} // verus!
