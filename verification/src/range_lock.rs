//! Which key ranges are being rewritten, so that no two rewrites touch the
//! same keys.

use vstd::prelude::*;

use crate::comparator::Comparator;
use crate::encoding::copy_bytes;

verus! {

/// A range of keys, both bounds included; an absent bound means none.
#[derive(Debug, Clone, PartialEq, Eq)]
pub struct KeyRange {
    pub min: Option<Vec<u8>>,
    pub max: Option<Vec<u8>>,
}

#[verifier::ext_equal]
pub struct KeyRangeView {
    pub min: Option<Seq<u8>>,
    pub max: Option<Seq<u8>>,
}

impl View for KeyRange {
    type V = KeyRangeView;

    open spec fn view(&self) -> KeyRangeView {
        KeyRangeView { min: crate::manifest::opt_key(self.min), max: crate::manifest::opt_key(self.max) }
    }
}

/// Whether all of `a` comes before all of `b`.
pub open spec fn range_before<C: Comparator>(c: C, a: KeyRangeView, b: KeyRangeView) -> bool {
    a.max is Some && b.min is Some && crate::comparator::key_lt(c, a.max->0, b.min->0)
}

/// Whether neither range comes before the other.
pub open spec fn ranges_overlap<C: Comparator>(c: C, a: KeyRangeView, b: KeyRangeView) -> bool {
    !range_before(c, a, b) && !range_before(c, b, a)
}

/// Whether `key` lies in the range.
pub open spec fn range_holds<C: Comparator>(c: C, r: KeyRangeView, key: Seq<u8>) -> bool {
    &&& r.min is Some ==> c.le(r.min->0, key)
    &&& r.max is Some ==> c.le(key, r.max->0)
}

/// Whether the range's bounds are in order.
pub open spec fn range_proper<C: Comparator>(c: C, r: KeyRangeView) -> bool {
    r.min is Some && r.max is Some ==> c.le(r.min->0, r.max->0)
}

/// Two proper ranges overlap exactly if some key lies in both: a shared bound
/// is enough.
pub proof fn lemma_overlap_is_a_shared_key<C: Comparator>(c: C, a: KeyRangeView, b: KeyRangeView)
    requires
        range_proper(c, a),
        range_proper(c, b),
    ensures
        ranges_overlap(c, a, b) <==> exists|key: Seq<u8>| #[trigger] range_holds(c, a, key) && range_holds(c, b, key),
{
    crate::comparator::lemma_order(c);
    if ranges_overlap(c, a, b) {
        let key = if a.min is Some && (b.min is None || c.le(b.min->0, a.min->0)) {
            a.min->0
        } else if b.min is Some {
            b.min->0
        } else if a.max is Some && (b.max is None || c.le(a.max->0, b.max->0)) {
            a.max->0
        } else if b.max is Some {
            b.max->0
        } else {
            Seq::empty()
        };
        assert(range_holds(c, a, key) && range_holds(c, b, key));
    }
    if exists|key: Seq<u8>| #[trigger] range_holds(c, a, key) && range_holds(c, b, key) {
        let key = choose|key: Seq<u8>| #[trigger] range_holds(c, a, key) && range_holds(c, b, key);
        assert(ranges_overlap(c, a, b));
    }
}

/// Whether `i` is the first of the least lower bounds.
pub open spec fn first_least<C: Comparator>(c: C, spans: Seq<(&[u8], &[u8])>, i: int) -> bool {
    &&& 0 <= i < spans.len()
    &&& forall|j: int| 0 <= j < spans.len() ==> c.le(spans[i].0@, (#[trigger] spans[j]).0@)
    &&& forall|j: int| 0 <= j < i ==> !c.le((#[trigger] spans[j]).0@, spans[i].0@)
}

/// Whether `i` is the first of the greatest upper bounds.
pub open spec fn first_greatest<C: Comparator>(c: C, spans: Seq<(&[u8], &[u8])>, i: int) -> bool {
    &&& 0 <= i < spans.len()
    &&& forall|j: int| 0 <= j < spans.len() ==> c.le((#[trigger] spans[j]).1@, spans[i].1@)
    &&& forall|j: int| 0 <= j < i ==> !c.le(spans[i].1@, (#[trigger] spans[j]).1@)
}

impl KeyRange {
    /// Every key.
    pub fn all() -> (r: KeyRange)
        ensures
            r@ == (KeyRangeView { min: None, max: None }),
    {
        KeyRange { min: None, max: None }
    }

    /// The keys from `min` to `max`.
    pub fn new(min: Vec<u8>, max: Vec<u8>) -> (r: KeyRange)
        ensures
            r@ == (KeyRangeView { min: Some(min@), max: Some(max@) }),
    {
        KeyRange { min: Some(min), max: Some(max) }
    }

    /// The range from the least lower bound to the greatest upper bound;
    /// nothing for no spans.
    pub fn union<C: Comparator>(spans: &Vec<(&[u8], &[u8])>, ord: &C) -> (r: Option<KeyRange>)
        ensures
            r is None <==> spans@.len() == 0,
            r is Some ==> (exists|i: int, j: int| #[trigger]
                first_least(*ord, spans@, i) && #[trigger] first_greatest(*ord, spans@, j) && r->0@ == (KeyRangeView {
                    min: Some(spans@[i].0@),
                    max: Some(spans@[j].1@),
                })),
    {
        if spans.len() == 0 {
            return None;
        }
        let mut lo: usize = 0;
        let mut hi: usize = 0;
        let mut k: usize = 1;
        proof {
            crate::comparator::lemma_order(*ord);
        }
        while k < spans.len()
            invariant
                1 <= k <= spans@.len(),
                lo < k,
                hi < k,
                forall|a: Seq<u8>, b: Seq<u8>| #[trigger] ord.le(a, b) || ord.le(b, a),
                forall|a: Seq<u8>, b: Seq<u8>, d: Seq<u8>| #[trigger] ord.le(a, b) && #[trigger] ord.le(b, d) ==> ord.le(a, d),
                forall|j: int| 0 <= j < k ==> ord.le(spans@[lo as int].0@, (#[trigger] spans@[j]).0@),
                forall|j: int| 0 <= j < lo ==> !ord.le((#[trigger] spans@[j]).0@, spans@[lo as int].0@),
                forall|j: int| 0 <= j < k ==> ord.le((#[trigger] spans@[j]).1@, spans@[hi as int].1@),
                forall|j: int| 0 <= j < hi ==> !ord.le(spans@[hi as int].1@, (#[trigger] spans@[j]).1@),
            decreases spans@.len() - k,
        {
            if ord.compare(spans[k].0, spans[lo].0).is_lt() {
                assert forall|j: int| 0 <= j < k implies !ord.le((#[trigger] spans@[j]).0@, spans@[k as int].0@) by {
                    assert(ord.le(spans@[lo as int].0@, spans@[j].0@));
                }
                lo = k;
            }
            if ord.compare(spans[k].1, spans[hi].1).is_gt() {
                assert forall|j: int| 0 <= j < k implies !ord.le(spans@[k as int].1@, (#[trigger] spans@[j]).1@) by {
                    assert(ord.le(spans@[j].1@, spans@[hi as int].1@));
                }
                hi = k;
            }
            k += 1;
        }
        assert(first_least(*ord, spans@, lo as int));
        assert(first_greatest(*ord, spans@, hi as int));
        Some(KeyRange::new(copy_bytes(spans[lo].0), copy_bytes(spans[hi].1)))
    }

    /// Whether two ranges share a key.
    pub fn overlaps<C: Comparator>(&self, other: &KeyRange, ord: &C) -> (r: bool)
        ensures
            r == ranges_overlap(*ord, self@, other@),
    {
        let a_before_b = match (&self.max, &other.min) {
            (Some(x), Some(y)) => ord.compare(x.as_slice(), y.as_slice()).is_lt(),
            _ => false,
        };
        let b_before_a = match (&other.max, &self.min) {
            (Some(x), Some(y)) => ord.compare(x.as_slice(), y.as_slice()).is_lt(),
            _ => false,
        };
        !(a_before_b || b_before_a)
    }

    /// Whether all of `[min, max]` lies in the range.
    pub fn contains_span<C: Comparator>(&self, min: &[u8], max: &[u8], ord: &C) -> (r: bool)
        ensures
            r == ((self@.min is Some ==> ord.le(self@.min->0, min@)) && (self@.max is Some ==> ord.le(max@, self@.max->0))),
    {
        let low = match &self.min {
            Some(m) => ord.compare(min, m.as_slice()).is_ge(),
            None => true,
        };
        let high = match &self.max {
            Some(m) => ord.compare(max, m.as_slice()).is_le(),
            None => true,
        };
        low && high
    }
}

/// The ranges that are held, each under the token it was given out with.
pub struct RangeLocks<C: Comparator> {
    ranges: Vec<(u64, KeyRange)>,
    next_token: u64,
    ord: C,
}

impl<C: Comparator> RangeLocks<C> {
    /// Tokens and ranges, in the order they were taken.
    pub closed spec fn held(self) -> Seq<(u64, KeyRangeView)> {
        self.ranges@.map_values(|x: (u64, KeyRange)| (x.0, x.1@))
    }

    pub closed spec fn order(self) -> C {
        self.ord
    }

    /// The token the next range is given.
    pub closed spec fn next_token(self) -> u64 {
        self.next_token
    }

    /// No two held ranges overlap, and no two tokens are the same.
    pub open spec fn valid(self) -> bool {
        &&& forall|i: int, j: int| 0 <= i < j < self.held().len() ==> !ranges_overlap(
            self.order(),
            (#[trigger] self.held()[i]).1,
            (#[trigger] self.held()[j]).1,
        )
        &&& forall|i: int, j: int| 0 <= i < j < self.held().len() ==> (#[trigger] self.held()[i]).0 != (#[trigger] self.held()[j]).0
        &&& forall|i: int| 0 <= i < self.held().len() ==> (#[trigger] self.held()[i]).0 < self.next_token()
    }

    /// Nothing held.
    pub fn new(ord: C) -> (r: RangeLocks<C>)
        ensures
            r.valid(),
            r.held() == Seq::<(u64, KeyRangeView)>::empty(),
            r.order() == ord,
            r.next_token() == 0,
    {
        let r = RangeLocks { ranges: Vec::new(), next_token: 0, ord };
        assert(r.held() =~= Seq::empty());
        r
    }

    fn conflicts(&self, range: &KeyRange) -> (r: bool)
        ensures
            r == exists|i: int| 0 <= i < self.held().len() && ranges_overlap(self.order(), (#[trigger] self.held()[i]).1, range@),
    {
        let mut i: usize = 0;
        while i < self.ranges.len()
            invariant
                i <= self.ranges@.len(),
                forall|j: int| 0 <= j < i ==> !ranges_overlap(self.order(), (#[trigger] self.held()[j]).1, range@),
            decreases self.ranges@.len() - i,
        {
            assert(self.held()[i as int] == (self.ranges@[i as int].0, self.ranges@[i as int].1@));
            if self.ranges[i].1.overlaps(range, &self.ord) {
                return true;
            }
            i += 1;
        }
        false
    }

    /// Take `range` unless a held range overlaps it: the token to release it
    /// with.
    pub fn try_acquire(&mut self, range: KeyRange) -> (r: Option<u64>)
        requires
            old(self).valid(),
            old(self).next_token() < u64::MAX,
        ensures
            final(self).valid(),
            final(self).order() == old(self).order(),
            r is None <==> exists|i: int|
                0 <= i < old(self).held().len() && ranges_overlap(old(self).order(), (#[trigger] old(self).held()[i]).1, range@),
            r is None ==> *final(self) == *old(self),
            r is Some ==> r->0 == old(self).next_token() && final(self).next_token() == old(self).next_token() + 1
                && final(self).held() == old(self).held().push((old(self).next_token(), range@)),
    {
        if self.conflicts(&range) {
            return None;
        }
        let ghost before = *self;
        let token = self.next_token;
        self.next_token = token + 1;
        self.ranges.push((token, range));
        proof {
            assert(self.held() =~= before.held().push((token, range@)));
            assert forall|i: int, j: int| 0 <= i < j < self.held().len() implies !ranges_overlap(
                self.order(),
                (#[trigger] self.held()[i]).1,
                (#[trigger] self.held()[j]).1,
            ) by {
                assert(self.held()[i] == before.held()[i]);
                if j < before.held().len() {
                    assert(self.held()[j] == before.held()[j]);
                }
            }
            assert forall|i: int| 0 <= i < self.held().len() implies (#[trigger] self.held()[i]).0 < self.next_token() by {
                if i < before.held().len() {
                    assert(self.held()[i] == before.held()[i]);
                }
            }
            assert forall|i: int, j: int| 0 <= i < j < self.held().len() implies (#[trigger] self.held()[i]).0 != (#[trigger] self.held()[j]).0 by {
                assert(self.held()[i] == before.held()[i]);
                if j < before.held().len() {
                    assert(self.held()[j] == before.held()[j]);
                }
            }
        }
        Some(token)
    }

    /// Give a range back. A token that holds nothing changes nothing.
    pub fn release(&mut self, token: u64)
        requires
            old(self).valid(),
        ensures
            final(self).valid(),
            final(self).order() == old(self).order(),
            final(self).next_token() == old(self).next_token(),
            forall|i: int| 0 <= i < old(self).held().len() && (#[trigger] old(self).held()[i]).0 == token ==> final(self).held() == old(self).held().remove(i),
            (forall|i: int| 0 <= i < old(self).held().len() ==> (#[trigger] old(self).held()[i]).0 != token) ==> final(self).held() == old(self).held(),
    {
        let ghost before = *self;
        let mut i: usize = 0;
        while i < self.ranges.len()
            invariant
                i <= self.ranges@.len(),
                *self == before,
                before == *old(self),
                before.valid(),
                forall|j: int| 0 <= j < i ==> (#[trigger] before.held()[j]).0 != token,
            decreases self.ranges@.len() - i,
        {
            assert(before.held()[i as int] == (self.ranges@[i as int].0, self.ranges@[i as int].1@));
            if self.ranges[i].0 == token {
                self.ranges.remove(i);
                proof {
                    let h0 = before.held();
                    let h1 = self.held();
                    assert(h1 =~= h0.remove(i as int));
                    assert forall|k: int| 0 <= k < h0.len() && (#[trigger] h0[k]).0 == token implies h1 == h0.remove(k) by {
                        if k < i {
                            assert(h0[k].0 != token);
                        } else if k > i {
                            assert(h0[i as int].0 != h0[k].0);
                        }
                    }
                    assert forall|a: int, b: int| 0 <= a < b < h1.len() implies !ranges_overlap(self.order(), (#[trigger] h1[a]).1, (#[trigger] h1[b]).1)
                        && h1[a].0 != h1[b].0 by {
                        let x = if a < i { a } else { a + 1 };
                        let y = if b < i { b } else { b + 1 };
                        assert(h1[a] == h0[x]);
                        assert(h1[b] == h0[y]);
                    }
                    assert forall|a: int| 0 <= a < h1.len() implies (#[trigger] h1[a]).0 < self.next_token() by {
                        let x = if a < i { a } else { a + 1 };
                        assert(h1[a] == h0[x]);
                    }
                }
                return;
            }
            i += 1;
        }
    }

    /// Whether nothing is held.
    pub fn is_empty(&self) -> (r: bool)
        ensures
            r == (self.held().len() == 0),
    {
        self.ranges.len() == 0
    }
}

/// The union of spans holds both ends of every span, and each of its own ends
/// is the end of one.
pub proof fn lemma_union_holds_every_span<C: Comparator>(c: C, spans: Seq<(&[u8], &[u8])>, i: int, j: int, k: int, key: Seq<u8>)
    requires
        first_least(c, spans, i),
        first_greatest(c, spans, j),
        0 <= k < spans.len(),
        c.le(spans[k].0@, key),
        c.le(key, spans[k].1@),
    ensures
        0 <= i < spans.len(),
        0 <= j < spans.len(),
        range_holds(c, KeyRangeView { min: Some(spans[i].0@), max: Some(spans[j].1@) }, key),
{
    crate::comparator::lemma_order(c);
}

/// A range holds the keys that are neither before its start nor behind its end,
/// both counted in; a missing end holds everything on its side.
pub proof fn lemma_range_holds_its_keys<C: Comparator>(c: C, min: Seq<u8>, max: Seq<u8>, key: Seq<u8>)
    ensures
        range_holds(c, KeyRangeView { min: Some(min), max: Some(max) }, key) <==> c.le(min, key) && c.le(key, max),
        range_holds(c, KeyRangeView { min: None, max: Some(max) }, key) <==> c.le(key, max),
        range_holds(c, KeyRangeView { min: Some(min), max: None }, key) <==> c.le(min, key),
        range_holds(c, KeyRangeView { min: None, max: None }, key),
{
}

/// What a lock is refused for: two locks that share a key are never held at
/// once.
pub proof fn lemma_locks_share_no_key<C: Comparator>(l: RangeLocks<C>, i: int, j: int, key: Seq<u8>)
    requires
        l.valid(),
        0 <= i < j < l.held().len(),
        range_proper(l.order(), l.held()[i].1),
        range_proper(l.order(), l.held()[j].1),
    ensures
        !(range_holds(l.order(), l.held()[i].1, key) && range_holds(l.order(), l.held()[j].1, key)),
{
    lemma_overlap_is_a_shared_key(l.order(), l.held()[i].1, l.held()[j].1);
}

} // verus!
