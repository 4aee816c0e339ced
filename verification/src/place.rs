//! Where an entry stands: user keys ascend, and of one key the newest version
//! comes first.

use vstd::prelude::*;

use crate::comparator::{Comparator, KeyComparator, KeyOrder};

verus! {

/// A user key and a sequence number.
pub type Place = (Seq<u8>, u64);

/// `a` comes before `b`.
pub open spec fn place_lt<C: Comparator>(ord: C, a: Place, b: Place) -> bool {
    crate::comparator::key_lt(ord, a.0, b.0) || (crate::comparator::same_key(ord, a.0, b.0) && a.1 > b.1)
}

/// `a` comes before `b` in one direction: forward or backward.
pub open spec fn leads<C: Comparator>(ord: C, forward: bool, a: Place, b: Place) -> bool {
    if forward { place_lt(ord, a, b) } else { place_lt(ord, b, a) }
}

/// `a` and `b` stand at the same place.
pub open spec fn same_place<C: Comparator>(ord: C, a: Place, b: Place) -> bool {
    crate::comparator::same_key(ord, a.0, b.0) && a.1 == b.1
}

/// Of two places one leads, in either direction, unless they are the same; and
/// what leads a leader leads, too.
pub proof fn lemma_place_order<C: Comparator>(ord: C, forward: bool)
    ensures
        forall|a: Place| !#[trigger] leads(ord, forward, a, a),
        forall|a: Place, b: Place| same_place(ord, a, b) || #[trigger] leads(ord, forward, a, b) || leads(ord, forward, b, a),
        forall|a: Place, b: Place| #[trigger] leads(ord, forward, a, b) ==> !leads(ord, forward, b, a),
        forall|a: Place, b: Place, c: Place| #[trigger] leads(ord, forward, a, b) && #[trigger] leads(ord, forward, b, c) ==> leads(ord, forward, a, c),
{
    crate::comparator::lemma_order(ord);
    assert forall|a: Place, b: Place| same_place(ord, a, b) || #[trigger] leads(ord, forward, a, b) || leads(ord, forward, b, a) by {
        assert(ord.le(a.0, b.0) || ord.le(b.0, a.0));
    }
    assert forall|a: Place, b: Place| #[trigger] leads(ord, forward, a, b) implies !leads(ord, forward, b, a) by {
        assert(ord.le(a.0, b.0) || ord.le(b.0, a.0));
    }
    assert forall|a: Place, b: Place, c: Place| #[trigger] leads(ord, forward, a, b) && #[trigger] leads(ord, forward, b, c) implies leads(
        ord,
        forward,
        a,
        c,
    ) by {
        let (x, y, z) = if forward { (a, b, c) } else { (c, b, a) };
        lemma_place_transitive(ord, x, y, z);
    }
}

/// What comes before one that comes before a third comes before it.
pub proof fn lemma_place_transitive<C: Comparator>(ord: C, x: Place, y: Place, z: Place)
    requires
        place_lt(ord, x, y),
        place_lt(ord, y, z),
    ensures
        place_lt(ord, x, z),
{
    crate::comparator::lemma_order(ord);
    assert(ord.le(x.0, y.0) || ord.le(y.0, x.0));
    assert(ord.le(y.0, z.0) || ord.le(z.0, y.0));
    assert(ord.le(x.0, y.0) && ord.le(y.0, z.0));
    assert(ord.le(x.0, z.0));
    if ord.le(z.0, x.0) {
        assert(ord.le(y.0, x.0));
        assert(ord.le(z.0, y.0));
    }
}

/// What comes before a place comes before every place that is not before it.
pub proof fn lemma_place_bounds<C: Comparator>(ord: C, a: Place, b: Place, c: Place)
    requires
        !place_lt(ord, b, a),
    ensures
        place_lt(ord, c, a) ==> place_lt(ord, c, b),
        place_lt(ord, b, c) ==> place_lt(ord, a, c),
{
    crate::comparator::lemma_order(ord);
    assert(ord.le(a.0, b.0) || ord.le(b.0, a.0));
    assert(ord.le(a.0, b.0));
    assert(ord.le(c.0, a.0) || ord.le(a.0, c.0));
    assert(ord.le(b.0, c.0) || ord.le(c.0, b.0));
    if ord.le(c.0, a.0) {
        assert(ord.le(c.0, b.0));
    }
    if ord.le(b.0, c.0) {
        assert(ord.le(a.0, c.0));
    }
}

/// Where only equal keys compare equal, places are in a strict total order, in
/// either direction.
pub proof fn lemma_places<C: KeyComparator>(ord: C, forward: bool)
    ensures
        forall|a: Place| !#[trigger] leads(ord, forward, a, a),
        forall|a: Place, b: Place| a == b || #[trigger] leads(ord, forward, a, b) || leads(ord, forward, b, a),
        forall|a: Place, b: Place| #[trigger] leads(ord, forward, a, b) ==> !leads(ord, forward, b, a),
        forall|a: Place, b: Place, c: Place| #[trigger] leads(ord, forward, a, b) && #[trigger] leads(ord, forward, b, c) ==> leads(ord, forward, a, c),
{
    lemma_place_order(ord, forward);
    assert forall|a: Place, b: Place| a == b || #[trigger] leads(ord, forward, a, b) || leads(ord, forward, b, a) by {
        if same_place(ord, a, b) {
            ord.lemma_antisymmetric(a.0, b.0);
        }
    }
}

/// Whether `r` is the first of the places in `s`, in one direction; nothing if
/// there is none.
pub open spec fn first_of<C: Comparator>(ord: C, forward: bool, s: Set<Place>, r: Option<Place>) -> bool {
    match r {
        None => forall|x: Place| !#[trigger] s.contains(x),
        Some(q) => s.contains(q) && forall|x: Place| #[trigger] s.contains(x) ==> !leads(ord, forward, x, q),
    }
}

/// The places of `s` that `p` leads, and `p` itself where it counts.
pub open spec fn beyond<C: Comparator>(ord: C, forward: bool, s: Set<Place>, p: Place, inclusive: bool) -> Set<Place> {
    s.filter(|x: Place| leads(ord, forward, p, x) || (inclusive && x == p))
}

/// There is one first place at most.
pub proof fn lemma_first_is_unique<C: KeyComparator>(ord: C, forward: bool, s: Set<Place>, a: Option<Place>, b: Option<Place>)
    requires
        first_of(ord, forward, s, a),
        first_of(ord, forward, s, b),
    ensures
        a == b,
{
    lemma_places(ord, forward);
    if let (Some(x), Some(y)) = (a, b) {
        assert(s.contains(x) && s.contains(y));
    }
}

/// How `(ka, sa)` stands to `(kb, sb)`.
pub fn compare_places<C: Comparator>(ord: &C, ka: &[u8], sa: u64, kb: &[u8], sb: u64) -> (r: KeyOrder)
    ensures
        r is Less <==> place_lt(*ord, (ka@, sa), (kb@, sb)),
        r is Greater <==> place_lt(*ord, (kb@, sb), (ka@, sa)),
        r is Equal <==> same_place(*ord, (ka@, sa), (kb@, sb)),
{
    let o = ord.compare(ka, kb);
    finish_comparison(ord, o, ka, sa, kb, sb)
}

/// How `(ka, sa)` stands to `(kb, sb)`, given how the keys stand.
pub fn finish_comparison<C: Comparator>(ord: &C, o: KeyOrder, ka: &[u8], sa: u64, kb: &[u8], sb: u64) -> (r: KeyOrder)
    requires
        o is Less <==> !ord.le(kb@, ka@),
        o is Greater <==> !ord.le(ka@, kb@),
    ensures
        r is Less <==> place_lt(*ord, (ka@, sa), (kb@, sb)),
        r is Greater <==> place_lt(*ord, (kb@, sb), (ka@, sa)),
        r is Equal <==> same_place(*ord, (ka@, sa), (kb@, sb)),
{
    proof {
        crate::comparator::lemma_order(*ord);
        assert(ord.le(ka@, kb@) || ord.le(kb@, ka@));
    }
    match o {
        KeyOrder::Less => KeyOrder::Less,
        KeyOrder::Greater => KeyOrder::Greater,
        KeyOrder::Equal => if sa > sb {
            KeyOrder::Less
        } else if sa < sb {
            KeyOrder::Greater
        } else {
            KeyOrder::Equal
        },
    }
}

/// What is stored at a place.
#[verifier::ext_equal]
pub struct Payload {
    pub value: Seq<u8>,
    /// Absolute expiry in nanoseconds; 0 for none.
    pub ttl: i64,
    pub flags: u8,
}

/// One version of a key.
pub struct Item {
    pub key: Vec<u8>,
    pub seq: u64,
    pub value: Vec<u8>,
    pub ttl: i64,
    pub flags: u8,
}

impl Item {
    pub open spec fn place(self) -> Place {
        (self.key@, self.seq)
    }

    pub open spec fn payload(self) -> Payload {
        Payload { value: self.value@, ttl: self.ttl, flags: self.flags }
    }
}

pub open spec fn place_of(r: Option<Item>) -> Option<Place> {
    match r {
        None => None,
        Some(i) => Some(i.place()),
    }
}

/// Whether `r` is the first item of `m` within `s`, with what is stored there.
pub open spec fn first_item<C: Comparator>(ord: C, forward: bool, m: Map<Place, Payload>, s: Set<Place>, r: Option<Item>) -> bool {
    &&& first_of(ord, forward, s, place_of(r))
    &&& r matches Some(i) ==> m.dom().contains(i.place()) && m[i.place()] == i.payload()
}

/// Places go by key, and of one key the newest first.
pub proof fn lemma_newest_comes_first<C: Comparator>(ord: C, a: Place, b: Place)
    ensures
        !ord.le(b.0, a.0) ==> place_lt(ord, a, b) && !place_lt(ord, b, a),
        ord.le(a.0, b.0) && ord.le(b.0, a.0) ==> (place_lt(ord, a, b) <==> a.1 > b.1),
        same_place(ord, a, b) <==> ord.le(a.0, b.0) && ord.le(b.0, a.0) && a.1 == b.1,
{
    crate::comparator::lemma_order(ord);
    assert(ord.le(a.0, b.0) || ord.le(b.0, a.0));
}

/// Beyond a place, going forward, lie the places that it comes before, and
/// going backward those that come before it; and the place itself where it
/// counts.
pub proof fn lemma_what_lies_beyond<C: Comparator>(ord: C, s: Set<Place>, p: Place, inclusive: bool, x: Place)
    ensures
        beyond(ord, true, s, p, inclusive).contains(x) <==> s.contains(x) && (place_lt(ord, p, x) || (inclusive && x == p)),
        beyond(ord, false, s, p, inclusive).contains(x) <==> s.contains(x) && (place_lt(ord, x, p) || (inclusive && x == p)),
{
}

/// The first of some places, going forward, is one of them that none of them
/// comes before; going backward, one that comes before none of them.
pub proof fn lemma_first_is_at_the_end<C: Comparator>(ord: C, s: Set<Place>, q: Place, x: Place)
    ensures
        first_of(ord, true, s, Some(q)) ==> s.contains(q) && (s.contains(x) ==> !place_lt(ord, x, q)),
        first_of(ord, false, s, Some(q)) ==> s.contains(q) && (s.contains(x) ==> !place_lt(ord, q, x)),
        first_of(ord, true, s, None) ==> !s.contains(x),
        first_of(ord, false, s, None) ==> !s.contains(x),
{
    if first_of(ord, true, s, Some(q)) && s.contains(x) {
        assert(!leads(ord, true, x, q));
    }
    if first_of(ord, false, s, Some(q)) && s.contains(x) {
        assert(!leads(ord, false, x, q));
    }
}

} // verus!
