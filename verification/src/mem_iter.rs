//! Iterators over the memtable: a merge of one cursor per shard, and a walk
//! over a sorted copy.

use vstd::prelude::*;

use crate::comparator::KeyComparator;
use crate::encoding::copy_bytes;
use crate::flags;
use crate::key_prefix::key_prefix8;
use crate::mem_heap::{build, heap_down};
use crate::memtable::{Entry, Memtable, NUM_SHARDS};
use crate::place::{compare_places, Item, Payload, Place};

verus! {

/// The places of shard `i`.
pub open spec fn shard_places<C: KeyComparator>(mem: Memtable<C>, i: int) -> Set<Place> {
    mem.shard(i).contents().dom()
}

/// Whether the cursor of shard `i` stands at its first place in `keep`.
pub open spec fn stands<C: KeyComparator>(
    mem: Memtable<C>,
    forward: bool,
    keep: spec_fn(Place) -> bool,
    curs: Seq<Option<Item>>,
    i: int,
) -> bool {
    crate::place::first_item(mem.order(), forward, mem.shard(i).contents(), shard_places(mem, i).filter(keep), curs[i])
}

/// The places that `p` leads, and `p` itself where it counts.
pub open spec fn past<C: KeyComparator>(ord: C, forward: bool, p: Place, inclusive: bool) -> spec_fn(Place) -> bool {
    |x: Place| crate::place::leads(ord, forward, p, x) || (inclusive && x == p)
}

/// One cursor for each shard, and a heap of those that stand at an item.
pub struct MemMerge<'a, C: KeyComparator> {
    mem: &'a Memtable<C>,
    curs: Vec<Option<Item>>,
    heap: Vec<usize>,
    forward: bool,
    bytewise: bool,
}

impl<'a, C: KeyComparator> MemMerge<'a, C> {
    pub closed spec fn table(self) -> Memtable<C> {
        *self.mem
    }

    /// What the merge walks.
    pub open spec fn contents(self) -> Map<Place, Payload> {
        self.table().contents()
    }

    pub open spec fn order(self) -> C {
        self.table().order()
    }

    /// Where the merge stands; nothing when it is past an end.
    pub closed spec fn place(self) -> Option<Place> {
        if self.heap@.len() == 0 { None } else { Some(crate::mem_heap::spot(self.curs@, self.heap@[0] as int)) }
    }

    /// What is stored there.
    pub open spec fn payload(self) -> Payload {
        self.contents()[self.place()->0]
    }

    /// The memtable is valid, and the comparator is known for what it is.
    spec fn grounded(self) -> bool {
        &&& self.mem.valid()
        &&& self.curs@.len() == NUM_SHARDS
        &&& self.bytewise ==> forall|x: Seq<u8>, y: Seq<u8>| #[trigger] self.mem.order().le(x, y) == crate::comparator::bytes_le(x, y)
    }

    /// Every cursor stands at the first place of its shard that the top does
    /// not come after.
    pub closed spec fn valid_merge(self) -> bool {
        &&& self.grounded()
        &&& crate::mem_heap::holds_all(self.curs@, self.heap@)
        &&& crate::mem_heap::ordered_from(self.mem.order(), self.forward, self.curs@, self.heap@, 0)
        &&& self.heap@.len() <= NUM_SHARDS
        &&& self.place() matches Some(t) ==> forall|i: int|
            0 <= i < NUM_SHARDS ==> #[trigger] stands(*self.mem, self.forward, past(self.mem.order(), self.forward, t, true), self.curs@, i)
    }

    /// A merge that stands nowhere.
    pub fn new(mem: &'a Memtable<C>) -> (r: MemMerge<'a, C>)
        requires
            mem.valid(),
        ensures
            r.valid_merge(),
            r.table() == *mem,
            r.place() is None,
    {
        let mut curs: Vec<Option<Item>> = Vec::new();
        while curs.len() < NUM_SHARDS
            invariant
                curs@.len() <= NUM_SHARDS,
                forall|i: int| 0 <= i < curs@.len() ==> (#[trigger] curs@[i]) is None,
            decreases NUM_SHARDS - curs@.len(),
        {
            curs.push(None);
        }
        let bytewise = mem.comparator().is_bytewise();
        MemMerge { mem, curs, heap: Vec::new(), forward: true, bytewise }
    }

    /// With every cursor at the first place of its shard in `keep`, the top of
    /// the heap is at the first of all.
    proof fn lemma_settled(self, keep: spec_fn(Place) -> bool)
        requires
            self.grounded(),
            crate::mem_heap::holds_all(self.curs@, self.heap@),
            crate::mem_heap::ordered_from(self.mem.order(), self.forward, self.curs@, self.heap@, 0),
            self.heap@.len() <= NUM_SHARDS,
            forall|i: int| 0 <= i < NUM_SHARDS ==> #[trigger] stands(*self.mem, self.forward, keep, self.curs@, i),
            forall|x: Place, y: Place| #[trigger] keep(x) && #[trigger] crate::place::leads(self.mem.order(), self.forward, x, y) ==> keep(y),
        ensures
            self.valid_merge(),
            crate::place::first_of(self.order(), self.forward, self.contents().dom().filter(keep), self.place()),
    {
        let ord = self.mem.order();
        let f = self.forward;
        let all = self.contents().dom().filter(keep);
        self.mem.lemma_valid();
        crate::place::lemma_places(ord, f);
        // Every kept place is no nearer than the cursor of its shard.
        assert forall|x: Place| #[trigger] all.contains(x) implies {
            let i = crate::memtable::shard_of(x.0);
            &&& self.curs@[i] is Some
            &&& !crate::place::leads(ord, f, x, crate::mem_heap::spot(self.curs@, i))
        } by {
            let i = crate::memtable::shard_of(x.0);
            assert(stands(*self.mem, f, keep, self.curs@, i));
            assert(shard_places(*self.mem, i).filter(keep).contains(x));
        }
        if self.heap@.len() == 0 {
            assert forall|x: Place| !#[trigger] all.contains(x) by {
                if all.contains(x) {
                    let i = crate::memtable::shard_of(x.0);
                    assert(self.curs@[i] is Some);
                    assert(self.heap@.contains(i as usize));
                }
            }
        } else {
            let top = self.heap@[0] as int;
            let t = crate::mem_heap::spot(self.curs@, top);
            assert(self.curs@[top] is Some);
            assert(stands(*self.mem, f, keep, self.curs@, top));
            assert(self.mem.shard_ok(top));
            assert(shard_places(*self.mem, top).contains(t));
            assert(all.contains(t));
            assert forall|i: int| 0 <= i < NUM_SHARDS && (#[trigger] self.curs@[i]) is Some implies !crate::place::leads(
                ord,
                f,
                crate::mem_heap::spot(self.curs@, i),
                t,
            ) by {
                assert(self.heap@.contains(i as usize));
                let k = choose|k: int| 0 <= k < self.heap@.len() && self.heap@[k] == i as usize;
                crate::mem_heap::lemma_top(ord, f, self.curs@, self.heap@, k);
            }
            assert forall|x: Place| #[trigger] all.contains(x) implies !crate::place::leads(ord, f, x, t) by {
                let i = crate::memtable::shard_of(x.0);
                let q = crate::mem_heap::spot(self.curs@, i);
                assert(self.curs@[i] is Some);
                assert(!crate::place::leads(ord, f, q, t));
                assert(q == t || crate::place::leads(ord, f, t, q));
                assert(x == q || crate::place::leads(ord, f, q, x));
                if crate::place::leads(ord, f, x, t) {
                    assert(!crate::place::leads(ord, f, t, x));
                }
            }
            assert forall|i: int| 0 <= i < NUM_SHARDS implies #[trigger] stands(*self.mem, f, past(ord, f, t, true), self.curs@, i) by {
                assert(stands(*self.mem, f, keep, self.curs@, i));
                let s0 = shard_places(*self.mem, i).filter(keep);
                let s1 = shard_places(*self.mem, i).filter(past(ord, f, t, true));
                assert forall|x: Place| #[trigger] s1.contains(x) implies s0.contains(x) by {
                    assert(keep(t));
                    if x != t {
                        assert(crate::place::leads(ord, f, t, x));
                    }
                }
                if self.curs@[i] is Some {
                    let q = crate::mem_heap::spot(self.curs@, i);
                    assert(s0.contains(q));
                    assert(!crate::place::leads(ord, f, q, t));
                    assert(q == t || crate::place::leads(ord, f, t, q));
                    assert(s1.contains(q));
                }
            }
        }
    }

    fn rebuild(&mut self, forward: bool)
        requires
            old(self).grounded(),
        ensures
            final(self).grounded(),
            final(self).mem == old(self).mem,
            final(self).curs == old(self).curs,
            final(self).forward == forward,
            crate::mem_heap::holds_all(final(self).curs@, final(self).heap@),
            crate::mem_heap::ordered_from(final(self).mem.order(), forward, final(self).curs@, final(self).heap@, 0),
            final(self).heap@.len() <= NUM_SHARDS,
    {
        let heap = build(self.mem.comparator(), self.bytewise, forward, &self.curs);
        self.heap = heap;
        self.forward = forward;
    }

    /// Stand at the first place in one direction.
    fn to_end(&mut self, forward: bool)
        requires
            old(self).valid_merge(),
        ensures
            final(self).valid_merge(),
            final(self).table() == old(self).table(),
            crate::place::first_of(final(self).order(), forward, final(self).contents().dom(), final(self).place()),
    {
        let ghost keep = |x: Place| true;
        let mut i: usize = 0;
        while i < NUM_SHARDS
            invariant
                i <= NUM_SHARDS,
                self.grounded(),
                self.mem == old(self).mem,
                keep == (|x: Place| true),
                forall|j: int| 0 <= j < i ==> #[trigger] stands(*self.mem, forward, keep, self.curs@, j),
            decreases NUM_SHARDS - i,
        {
            proof {
                self.mem.lemma_valid();
                assert(self.mem.shard_ok(i as int));
            }
            let ghost c0 = self.curs@;
            let item = self.mem.shard_ref(i).end(self.mem.comparator(), forward);
            self.curs.set(i, item);
            proof {
                assert(shard_places(*self.mem, i as int).filter(keep) =~= shard_places(*self.mem, i as int));
                assert forall|j: int| 0 <= j < i + 1 implies #[trigger] stands(*self.mem, forward, keep, self.curs@, j) by {
                    if j < i {
                        assert(stands(*self.mem, forward, keep, c0, j));
                    }
                }
            }
            i += 1;
        }
        self.rebuild(forward);
        proof {
            self.lemma_settled(keep);
            assert(self.contents().dom().filter(keep) =~= self.contents().dom());
        }
    }

    /// Stand at the first place in one direction after `(key, seq)`, which
    /// itself counts where `inclusive`.
    fn to_place(&mut self, forward: bool, key: &[u8], seq: u64, inclusive: bool)
        requires
            old(self).grounded(),
        ensures
            final(self).valid_merge(),
            final(self).table() == old(self).table(),
            crate::place::first_of(
                final(self).order(),
                forward,
                crate::place::beyond(final(self).order(), forward, final(self).contents().dom(), (key@, seq), inclusive),
                final(self).place(),
            ),
    {
        let ghost p = (key@, seq);
        let ghost keep = past(self.mem.order(), forward, p, inclusive);
        let mut i: usize = 0;
        while i < NUM_SHARDS
            invariant
                i <= NUM_SHARDS,
                self.grounded(),
                self.mem == old(self).mem,
                p == (key@, seq),
                keep == past(self.mem.order(), forward, p, inclusive),
                forall|j: int| 0 <= j < i ==> #[trigger] stands(*self.mem, forward, keep, self.curs@, j),
            decreases NUM_SHARDS - i,
        {
            proof {
                self.mem.lemma_valid();
                assert(self.mem.shard_ok(i as int));
            }
            let ghost c0 = self.curs@;
            let item = self.mem.shard_ref(i).find(self.mem.comparator(), forward, key, seq, inclusive);
            self.curs.set(i, item);
            proof {
                assert(shard_places(*self.mem, i as int).filter(keep) =~= crate::place::beyond(
                    self.mem.order(),
                    forward,
                    shard_places(*self.mem, i as int),
                    p,
                    inclusive,
                ));
                assert forall|j: int| 0 <= j < i + 1 implies #[trigger] stands(*self.mem, forward, keep, self.curs@, j) by {
                    if j < i {
                        assert(stands(*self.mem, forward, keep, c0, j));
                    }
                }
            }
            i += 1;
        }
        self.rebuild(forward);
        proof {
            crate::place::lemma_places(self.mem.order(), forward);
            self.lemma_settled(keep);
            assert(self.contents().dom().filter(keep) =~= crate::place::beyond(
                self.order(),
                forward,
                self.contents().dom(),
                p,
                inclusive,
            ));
        }
    }

    /// Stand at the first place.
    pub fn seek_to_first(&mut self)
        requires
            old(self).valid_merge(),
        ensures
            final(self).valid_merge(),
            final(self).table() == old(self).table(),
            crate::place::first_of(final(self).order(), true, final(self).contents().dom(), final(self).place()),
    {
        self.to_end(true);
    }

    /// Stand at the last place.
    pub fn seek_to_last(&mut self)
        requires
            old(self).valid_merge(),
        ensures
            final(self).valid_merge(),
            final(self).table() == old(self).table(),
            crate::place::first_of(final(self).order(), false, final(self).contents().dom(), final(self).place()),
    {
        self.to_end(false);
    }

    /// Stand at the first place at or after `(key, seq)`.
    pub fn seek_ge(&mut self, key: &[u8], seq: u64)
        requires
            old(self).valid_merge(),
        ensures
            final(self).valid_merge(),
            final(self).table() == old(self).table(),
            crate::place::first_of(
                final(self).order(),
                true,
                crate::place::beyond(final(self).order(), true, final(self).contents().dom(), (key@, seq), true),
                final(self).place(),
            ),
    {
        self.to_place(true, key, seq, true);
    }

    /// Stand at the last place at or before `(key, seq)`.
    pub fn seek_le(&mut self, key: &[u8], seq: u64)
        requires
            old(self).valid_merge(),
        ensures
            final(self).valid_merge(),
            final(self).table() == old(self).table(),
            crate::place::first_of(
                final(self).order(),
                false,
                crate::place::beyond(final(self).order(), false, final(self).contents().dom(), (key@, seq), true),
                final(self).place(),
            ),
    {
        self.to_place(false, key, seq, true);
    }

    /// Step to the next place in one direction; past the end, stay there.
    fn step(&mut self, forward: bool)
        requires
            old(self).valid_merge(),
        ensures
            final(self).valid_merge(),
            final(self).table() == old(self).table(),
            match old(self).place() {
                None => final(self).place() is None,
                Some(p) => crate::place::first_of(
                    final(self).order(),
                    forward,
                    crate::place::beyond(final(self).order(), forward, final(self).contents().dom(), p, false),
                    final(self).place(),
                ),
            },
    {
        if self.heap.len() == 0 {
            return;
        }
        let top = self.heap[0];
        let ghost t = crate::mem_heap::spot(self.curs@, top as int);
        let (key, seq) = match &self.curs[top] {
            Some(i) => (copy_bytes(i.key.as_slice()), i.seq),
            None => {
                return;
            },
        };
        if forward != self.forward {
            self.to_place(forward, key.as_slice(), seq, false);
            return;
        }
        self.step_top(top, key.as_slice(), seq);
    }

    /// Step the cursor on top, in the direction of the heap.
    fn step_top(&mut self, top: usize, key: &[u8], seq: u64)
        requires
            old(self).valid_merge(),
            old(self).heap@.len() > 0,
            old(self).heap@[0] == top,
            old(self).place() == Some((key@, seq)),
        ensures
            final(self).valid_merge(),
            final(self).table() == old(self).table(),
            final(self).forward == old(self).forward,
            crate::place::first_of(
                final(self).order(),
                final(self).forward,
                crate::place::beyond(final(self).order(), final(self).forward, final(self).contents().dom(), (key@, seq), false),
                final(self).place(),
            ),
    {
        let ghost t = (key@, seq);
        let ghost f = self.forward;
        let ghost ord = self.mem.order();
        let ghost c0 = self.curs@;
        let ghost h0 = self.heap@;
        let ghost keep = past(ord, f, t, false);
        proof {
            self.mem.lemma_valid();
            assert(self.mem.shard_ok(top as int));
            crate::place::lemma_places(ord, f);
            assert(stands(*self.mem, f, past(ord, f, t, true), c0, top as int));
            assert(shard_places(*self.mem, top as int).contains(t));
        }
        let item = self.mem.shard_ref(top).find(self.mem.comparator(), self.forward, key, seq, false);
        let live = item.is_some();
        self.curs.set(top, item);
        proof {
            let c1 = self.curs@;
            assert forall|i: int| 0 <= i < NUM_SHARDS implies #[trigger] stands(*self.mem, f, keep, c1, i) by {
                let places = shard_places(*self.mem, i);
                if i == top {
                    assert(places.filter(keep) =~= crate::place::beyond(ord, f, places, t, false));
                } else {
                    assert(stands(*self.mem, f, past(ord, f, t, true), c0, i));
                    assert(self.mem.shard_ok(i));
                    assert(!places.contains(t));
                    assert(places.filter(keep) =~= places.filter(past(ord, f, t, true)));
                }
            }
        }
        if !live {
            let last = self.heap.len() - 1;
            let moved = self.heap[last];
            self.heap.set(0, moved);
            self.heap.pop();
            proof {
                let h1 = self.heap@;
                let c1 = self.curs@;
                assert forall|k: int| 0 <= k < h1.len() implies (#[trigger] h1[k]) < c1.len() && c1[h1[k] as int] is Some by {
                    if k == 0 {
                        assert(h1[0] == h0[last as int]);
                        assert(h0[0] != h0[last as int]);
                        assert(c0[h0[last as int] as int] is Some);
                    } else {
                        assert(h1[k] == h0[k]);
                        assert(h0[0] != h0[k]);
                    }
                }
                assert forall|j: int, k: int| 0 <= j < k < h1.len() implies #[trigger] h1[j] != #[trigger] h1[k] by {
                    assert(h1[k] == h0[k]);
                    if j == 0 {
                        assert(h0[k] != h0[last as int]);
                    } else {
                        assert(h1[j] == h0[j]);
                        assert(h0[j] != h0[k]);
                    }
                }
                assert forall|i: int| 0 <= i < c1.len() && (#[trigger] c1[i]) is Some implies h1.contains(i as usize) by {
                    assert(i != top);
                    assert(c0[i] is Some);
                    let k = choose|k: int| 0 <= k < h0.len() && h0[k] == i as usize;
                    if k == last {
                        assert(h1[0] == i as usize);
                    } else {
                        assert(h1[k] == i as usize);
                    }
                }
                assert forall|k: int| 0 < k < h1.len() && (k - 1) / 2 >= 1 implies #[trigger] crate::mem_heap::in_order(ord, f, c1, h1, k) by {
                    assert(crate::mem_heap::in_order(ord, f, c0, h0, k));
                    assert(h1[k] == h0[k]);
                    assert(h1[(k - 1) / 2] == h0[(k - 1) / 2]);
                    assert(h0[0] != h0[k]);
                    assert(h0[0] != h0[(k - 1) / 2]);
                }
            }
        } else {
            proof {
                let c1 = self.curs@;
                assert forall|i: int| 0 <= i < c1.len() && (#[trigger] c1[i]) is Some implies h0.contains(i as usize) by {
                    if i == top {
                        assert(h0[0] == i as usize);
                    } else {
                        assert(c0[i] is Some);
                    }
                }
                assert forall|k: int| 0 < k < h0.len() && (k - 1) / 2 >= 1 implies #[trigger] crate::mem_heap::in_order(ord, f, c1, h0, k) by {
                    assert(crate::mem_heap::in_order(ord, f, c0, h0, k));
                    assert(h0[0] != h0[k]);
                    assert(h0[0] != h0[(k - 1) / 2]);
                }
            }
        }
        if self.heap.len() > 0 {
            heap_down(self.mem.comparator(), self.bytewise, self.forward, &self.curs, &mut self.heap, 0);
        }
        proof {
            self.lemma_settled(keep);
            assert(self.contents().dom().filter(keep) =~= crate::place::beyond(ord, f, self.contents().dom(), t, false));
        }
    }

    /// Step to the next place; past an end, stay there.
    pub fn next(&mut self)
        requires
            old(self).valid_merge(),
        ensures
            final(self).valid_merge(),
            final(self).table() == old(self).table(),
            match old(self).place() {
                None => final(self).place() is None,
                Some(p) => crate::place::first_of(
                    final(self).order(),
                    true,
                    crate::place::beyond(final(self).order(), true, final(self).contents().dom(), p, false),
                    final(self).place(),
                ),
            },
    {
        self.step(true);
    }

    /// Step to the previous place; past an end, stay there.
    pub fn prev(&mut self)
        requires
            old(self).valid_merge(),
        ensures
            final(self).valid_merge(),
            final(self).table() == old(self).table(),
            match old(self).place() {
                None => final(self).place() is None,
                Some(p) => crate::place::first_of(
                    final(self).order(),
                    false,
                    crate::place::beyond(final(self).order(), false, final(self).contents().dom(), p, false),
                    final(self).place(),
                ),
            },
    {
        self.step(false);
    }

    /// Whether the merge stands at an item.
    pub fn valid(&self) -> (r: bool)
        ensures
            r == self.place() is Some,
    {
        self.heap.len() > 0
    }

    /// The item at which the merge stands.
    pub fn top(&self) -> (r: &Item)
        requires
            self.valid_merge(),
            self.place() is Some,
        ensures
            Some(r.place()) == self.place(),
            self.contents().dom().contains(r.place()),
            r.payload() == self.payload(),
    {
        let i = self.heap[0];
        proof {
            let t = self.place()->0;
            self.mem.lemma_valid();
            assert(stands(*self.mem, self.forward, past(self.mem.order(), self.forward, t, true), self.curs@, i as int));
            assert(self.mem.shard_ok(i as int));
        }
        match &self.curs[i] {
            Some(x) => x,
            None => {
                assert(false);
                vstd::pervasive::unreached()
            },
        }
    }
}

/// Walks the memtable in both directions, merging its shards as it goes.
pub struct LazyMemIter<'a, C: KeyComparator> {
    merge: MemMerge<'a, C>,
}

impl<'a, C: KeyComparator> LazyMemIter<'a, C> {
    pub closed spec fn table(self) -> Memtable<C> {
        self.merge.table()
    }

    pub open spec fn contents(self) -> Map<Place, Payload> {
        self.table().contents()
    }

    pub open spec fn order(self) -> C {
        self.table().order()
    }

    /// Where the iterator stands; nothing when it is past an end.
    pub closed spec fn place(self) -> Option<Place> {
        self.merge.place()
    }

    /// What is stored there.
    pub open spec fn payload(self) -> Payload {
        self.contents()[self.place()->0]
    }

    pub closed spec fn valid_iter(self) -> bool {
        self.merge.valid_merge()
    }

    /// An iterator that stands nowhere.
    pub fn new(mem: &'a Memtable<C>) -> (r: LazyMemIter<'a, C>)
        requires
            mem.valid(),
        ensures
            r.valid_iter(),
            r.table() == *mem,
            r.place() is None,
    {
        LazyMemIter { merge: MemMerge::new(mem) }
    }

    /// Whether the iterator stands at a version.
    pub fn valid(&self) -> (r: bool)
        ensures
            r == self.place() is Some,
    {
        self.merge.valid()
    }

    pub fn seek_to_first(&mut self)
        requires
            old(self).valid_iter(),
        ensures
            final(self).valid_iter(),
            final(self).table() == old(self).table(),
            crate::place::first_of(final(self).order(), true, final(self).contents().dom(), final(self).place()),
    {
        self.merge.seek_to_first();
    }

    pub fn seek_to_last(&mut self)
        requires
            old(self).valid_iter(),
        ensures
            final(self).valid_iter(),
            final(self).table() == old(self).table(),
            crate::place::first_of(final(self).order(), false, final(self).contents().dom(), final(self).place()),
    {
        self.merge.seek_to_last();
    }

    /// Stand at the newest version of the first key at or after `user_key`.
    pub fn seek(&mut self, user_key: &[u8])
        requires
            old(self).valid_iter(),
        ensures
            final(self).valid_iter(),
            final(self).table() == old(self).table(),
            crate::place::first_of(
                final(self).order(),
                true,
                crate::place::beyond(final(self).order(), true, final(self).contents().dom(), (user_key@, u64::MAX), true),
                final(self).place(),
            ),
    {
        self.merge.seek_ge(user_key, u64::MAX);
    }

    /// Stand at the first version at or after `(user_key, seq)`.
    pub fn seek_ge(&mut self, user_key: &[u8], seq: u64)
        requires
            old(self).valid_iter(),
        ensures
            final(self).valid_iter(),
            final(self).table() == old(self).table(),
            crate::place::first_of(
                final(self).order(),
                true,
                crate::place::beyond(final(self).order(), true, final(self).contents().dom(), (user_key@, seq), true),
                final(self).place(),
            ),
    {
        self.merge.seek_ge(user_key, seq);
    }

    /// Stand at the last version at or before `(user_key, seq)`.
    pub fn seek_le(&mut self, user_key: &[u8], seq: u64)
        requires
            old(self).valid_iter(),
        ensures
            final(self).valid_iter(),
            final(self).table() == old(self).table(),
            crate::place::first_of(
                final(self).order(),
                false,
                crate::place::beyond(final(self).order(), false, final(self).contents().dom(), (user_key@, seq), true),
                final(self).place(),
            ),
    {
        self.merge.seek_le(user_key, seq);
    }

    /// Step to the next version; past an end, stay there.
    pub fn next(&mut self)
        requires
            old(self).valid_iter(),
        ensures
            final(self).valid_iter(),
            final(self).table() == old(self).table(),
            match old(self).place() {
                None => final(self).place() is None,
                Some(p) => crate::place::first_of(
                    final(self).order(),
                    true,
                    crate::place::beyond(final(self).order(), true, final(self).contents().dom(), p, false),
                    final(self).place(),
                ),
            },
    {
        self.merge.next();
    }

    /// Step to the previous version; past an end, stay there.
    pub fn prev(&mut self)
        requires
            old(self).valid_iter(),
        ensures
            final(self).valid_iter(),
            final(self).table() == old(self).table(),
            match old(self).place() {
                None => final(self).place() is None,
                Some(p) => crate::place::first_of(
                    final(self).order(),
                    false,
                    crate::place::beyond(final(self).order(), false, final(self).contents().dom(), p, false),
                    final(self).place(),
                ),
            },
    {
        self.merge.prev();
    }

    pub fn user_key(&self) -> (r: &[u8])
        requires
            self.valid_iter(),
            self.place() is Some,
        ensures
            r@ == (self.place()->0).0,
    {
        self.merge.top().key.as_slice()
    }

    /// The first eight bytes of the key.
    pub fn key_prefix(&self) -> (r: u64)
        requires
            self.valid_iter(),
            self.place() is Some,
        ensures
            r == crate::key_prefix::prefix_value((self.place()->0).0, 0),
    {
        key_prefix8(self.user_key())
    }

    pub fn seq(&self) -> (r: u64)
        requires
            self.valid_iter(),
            self.place() is Some,
        ensures
            r == (self.place()->0).1,
    {
        self.merge.top().seq
    }

    pub fn ttl(&self) -> (r: i64)
        requires
            self.valid_iter(),
            self.place() is Some,
        ensures
            r == self.payload().ttl,
    {
        self.merge.top().ttl
    }

    pub fn is_tombstone(&self) -> (r: bool)
        requires
            self.valid_iter(),
            self.place() is Some,
        ensures
            r == (self.payload().flags & flags::TOMBSTONE != 0),
    {
        self.merge.top().flags & flags::TOMBSTONE != 0
    }

    pub fn value(&self) -> (r: Vec<u8>)
        requires
            self.valid_iter(),
            self.place() is Some,
        ensures
            r@ == self.payload().value,
    {
        copy_bytes(self.value_ref())
    }

    /// The value, borrowed.
    pub fn value_ref(&self) -> (r: &[u8])
        requires
            self.valid_iter(),
            self.place() is Some,
        ensures
            r@ == self.payload().value,
    {
        self.merge.top().value.as_slice()
    }
}

/// Walks the memtable forward only, from its first version on.
pub struct FlushMerge<'a, C: KeyComparator> {
    merge: MemMerge<'a, C>,
}

impl<'a, C: KeyComparator> FlushMerge<'a, C> {
    pub closed spec fn table(self) -> Memtable<C> {
        self.merge.table()
    }

    pub closed spec fn place(self) -> Option<Place> {
        self.merge.place()
    }

    pub closed spec fn valid_iter(self) -> bool {
        self.merge.valid_merge()
    }

    pub fn new(mem: &'a Memtable<C>) -> (r: FlushMerge<'a, C>)
        requires
            mem.valid(),
        ensures
            r.valid_iter(),
            r.table() == *mem,
            crate::place::first_of(mem.order(), true, mem.contents().dom(), r.place()),
    {
        let mut merge = MemMerge::new(mem);
        merge.seek_to_first();
        FlushMerge { merge }
    }

    /// Whether a version is left.
    pub fn valid(&self) -> (r: bool)
        ensures
            r == self.place() is Some,
    {
        self.merge.valid()
    }

    /// The version at which the walk stands.
    pub fn top(&self) -> (r: &Item)
        requires
            self.valid_iter(),
            self.place() is Some,
        ensures
            Some(r.place()) == self.place(),
            self.table().contents().dom().contains(r.place()),
            r.payload() == self.table().contents()[r.place()],
    {
        self.merge.top()
    }

    /// Step to the next version; past the end, stay there.
    pub fn advance(&mut self)
        requires
            old(self).valid_iter(),
        ensures
            final(self).valid_iter(),
            final(self).table() == old(self).table(),
            match old(self).place() {
                None => final(self).place() is None,
                Some(p) => crate::place::first_of(
                    final(self).table().order(),
                    true,
                    crate::place::beyond(final(self).table().order(), true, final(self).table().contents().dom(), p, false),
                    final(self).place(),
                ),
            },
    {
        self.merge.next();
    }
}

fn to_entry(i: &Item) -> (r: Entry)
    ensures
        crate::memtable::entry_place(r) == i.place(),
        r.value@ == i.payload().value,
        r.ttl == i.payload().ttl,
        r.tombstone == (i.payload().flags & flags::TOMBSTONE != 0),
        r.single_delete == (i.payload().flags & flags::SINGLE_DELETE != 0),
{
    Entry {
        user_key: copy_bytes(i.key.as_slice()),
        value: copy_bytes(i.value.as_slice()),
        seq: i.seq,
        ttl: i.ttl,
        tombstone: i.flags & flags::TOMBSTONE != 0,
        single_delete: i.flags & flags::SINGLE_DELETE != 0,
    }
}

/// The places at or after `at`; none when there is no such place.
spec fn ahead<C: KeyComparator>(ord: C, s: Set<Place>, at: Option<Place>) -> Set<Place> {
    match at {
        None => Set::empty(),
        Some(p) => crate::place::beyond(ord, true, s, p, true),
    }
}

impl<C: KeyComparator> Memtable<C> {
    /// An iterator over all versions.
    pub fn iter(&self) -> (r: LazyMemIter<'_, C>)
        requires
            self.valid(),
        ensures
            r.valid_iter(),
            r.table() == *self,
            r.place() is None,
    {
        LazyMemIter::new(self)
    }

    /// A forward walk over all versions.
    pub fn flush_merge(&self) -> (r: FlushMerge<'_, C>)
        requires
            self.valid(),
        ensures
            r.valid_iter(),
            r.table() == *self,
            crate::place::first_of(self.order(), true, self.contents().dom(), r.place()),
    {
        FlushMerge::new(self)
    }

    /// A copy of all versions, in order.
    pub fn snapshot(&self) -> (r: Vec<Entry>)
        requires
            self.valid(),
        ensures
            crate::memtable::lists(self.order(), self.contents(), r@),
    {
        let mut m = MemMerge::new(self);
        m.seek_to_first();
        let ghost dom = self.contents().dom();
        let ghost ord = self.order();
        let mut out: Vec<Entry> = Vec::new();
        proof {
            self.lemma_valid();
            crate::place::lemma_places(ord, true);
            assert forall|p: Place| #[trigger] dom.contains(p) implies ahead(ord, dom, m.place()).contains(p) by {
                let t = m.place()->0;
                assert(m.place() is Some);
                assert(!crate::place::leads(ord, true, p, t));
                assert(p == t || crate::place::leads(ord, true, t, p));
            }
        }
        while m.valid()
            invariant
                m.valid_merge(),
                m.table() == *self,
                dom == self.contents().dom(),
                dom.finite(),
                ord == self.order(),
                m.place() matches Some(t) ==> dom.contains(t),
                forall|i: int| 0 <= i < out@.len() ==> crate::memtable::is_entry(self.contents(), #[trigger] out@[i]),
                forall|i: int, j: int|
                    0 <= i < j < out@.len() ==> crate::place::place_lt(
                        ord,
                        crate::memtable::entry_place(#[trigger] out@[i]),
                        crate::memtable::entry_place(#[trigger] out@[j]),
                    ),
                forall|i: int|
                    0 <= i < out@.len() ==> (m.place() matches Some(t) ==> crate::place::place_lt(
                        ord,
                        crate::memtable::entry_place(#[trigger] out@[i]),
                        t,
                    )),
                forall|p: Place| #[trigger]
                    dom.contains(p) ==> ahead(ord, dom, m.place()).contains(p) || exists|i: int|
                        0 <= i < out@.len() && crate::memtable::entry_place(#[trigger] out@[i]) == p,
            decreases ahead(ord, dom, m.place()).len(),
        {
            let ghost t = m.place()->0;
            let ghost o0 = out@;
            let ghost a0 = ahead(ord, dom, m.place());
            let e = to_entry(m.top());
            out.push(e);
            m.next();
            proof {
                crate::place::lemma_places(ord, true);
                let a1 = ahead(ord, dom, m.place());
                let b = crate::place::beyond(ord, true, dom, t, false);
                assert(a0.contains(t));
                assert forall|x: Place| #[trigger] a1.contains(x) implies a0.contains(x) && x != t by {
                    let q = m.place()->0;
                    assert(b.contains(q));
                    assert(crate::place::leads(ord, true, t, q));
                    if x != q {
                        assert(crate::place::leads(ord, true, q, x));
                    }
                    assert(crate::place::leads(ord, true, t, x));
                }
                assert(a0.finite());
                vstd::set_lib::lemma_len_subset(a1, a0.remove(t));
                assert forall|i: int| 0 <= i < out@.len() implies (m.place() matches Some(q) ==> crate::place::place_lt(
                    ord,
                    crate::memtable::entry_place(#[trigger] out@[i]),
                    q,
                )) by {
                    if let Some(q) = m.place() {
                        assert(b.contains(q));
                        assert(crate::place::leads(ord, true, t, q));
                        if i < o0.len() {
                            assert(out@[i] == o0[i]);
                            assert(crate::place::leads(ord, true, crate::memtable::entry_place(o0[i]), t));
                        }
                    }
                }
                assert forall|i: int, j: int| 0 <= i < j < out@.len() implies crate::place::place_lt(
                    ord,
                    crate::memtable::entry_place(#[trigger] out@[i]),
                    crate::memtable::entry_place(#[trigger] out@[j]),
                ) by {
                    assert(out@[i] == o0[i]);
                    if j < o0.len() {
                        assert(out@[j] == o0[j]);
                    }
                }
                assert forall|p: Place| #[trigger] dom.contains(p) implies a1.contains(p) || exists|i: int|
                    0 <= i < out@.len() && crate::memtable::entry_place(#[trigger] out@[i]) == p by {
                    if a0.contains(p) {
                        if p == t {
                            assert(crate::memtable::entry_place(out@[o0.len() as int]) == p);
                        } else {
                            assert(crate::place::leads(ord, true, t, p));
                            assert(b.contains(p));
                            let q = m.place()->0;
                            assert(m.place() is Some);
                            assert(!crate::place::leads(ord, true, p, q));
                            assert(p == q || crate::place::leads(ord, true, q, p));
                        }
                    } else {
                        let i = choose|i: int| 0 <= i < o0.len() && crate::memtable::entry_place(#[trigger] o0[i]) == p;
                        assert(crate::memtable::entry_place(out@[i]) == p);
                    }
                }
            }
        }
        out
    }
}

// ---------------------------------------------------------------------------
// A walk over a sorted copy
// ---------------------------------------------------------------------------

/// Whether entries are in order.
pub open spec fn sorted<C: KeyComparator>(ord: C, es: Seq<Entry>) -> bool {
    forall|i: int, j: int|
        0 <= i < j < es.len() ==> crate::place::place_lt(
            ord,
            crate::memtable::entry_place(#[trigger] es[i]),
            crate::memtable::entry_place(#[trigger] es[j]),
        )
}

/// Walks a sorted copy of the versions in both directions.
pub struct MemIterator<C: KeyComparator> {
    entries: Vec<Entry>,
    ord: C,
    pos: usize,
    valid: bool,
}

impl<C: KeyComparator> MemIterator<C> {
    pub closed spec fn listing(self) -> Seq<Entry> {
        self.entries@
    }

    pub closed spec fn order(self) -> C {
        self.ord
    }

    /// The index at which the iterator stands, or to which it last stepped.
    pub closed spec fn at(self) -> int {
        self.pos as int
    }

    /// Whether the last move ended at an entry.
    pub closed spec fn live(self) -> bool {
        self.valid
    }

    pub open spec fn valid_iter(self) -> bool {
        &&& sorted(self.order(), self.listing())
        &&& 0 <= self.at() <= self.listing().len()
        &&& self.live() ==> self.at() < self.listing().len()
    }

    /// Where the iterator stands; nothing when it is past an end.
    pub open spec fn place(self) -> Option<Place> {
        if self.live() { Some(crate::memtable::entry_place(self.listing()[self.at()])) } else { None }
    }

    /// An iterator over entries in order, which stands nowhere.
    pub fn new(entries: Vec<Entry>, ord: C) -> (r: MemIterator<C>)
        requires
            sorted(ord, entries@),
        ensures
            r.valid_iter(),
            r.listing() == entries@,
            r.order() == ord,
            r.at() == 0,
            !r.live(),
    {
        MemIterator { entries, ord, pos: 0, valid: false }
    }

    /// Whether the iterator stands at an entry.
    pub fn valid(&self) -> (r: bool)
        requires
            self.valid_iter(),
        ensures
            r == self.place() is Some,
    {
        self.valid && self.pos < self.entries.len()
    }

    pub fn seek_to_first(&mut self)
        requires
            old(self).valid_iter(),
        ensures
            final(self).valid_iter(),
            final(self).listing() == old(self).listing(),
            final(self).order() == old(self).order(),
            final(self).at() == 0,
            final(self).live() == (old(self).listing().len() > 0),
    {
        self.pos = 0;
        self.valid = self.entries.len() > 0;
    }

    pub fn seek_to_last(&mut self)
        requires
            old(self).valid_iter(),
        ensures
            final(self).valid_iter(),
            final(self).listing() == old(self).listing(),
            final(self).order() == old(self).order(),
            final(self).live() == (old(self).listing().len() > 0),
            final(self).at() == (if old(self).listing().len() > 0 { old(self).listing().len() - 1 } else { 0 }),
    {
        if self.entries.len() == 0 {
            self.valid = false;
        } else {
            self.pos = self.entries.len() - 1;
            self.valid = true;
        }
    }

    /// Stand at the newest version of the first key at or after `user_key`.
    pub fn seek(&mut self, user_key: &[u8])
        requires
            old(self).valid_iter(),
        ensures
            final(self).valid_iter(),
            final(self).listing() == old(self).listing(),
            final(self).order() == old(self).order(),
            forall|i: int|
                0 <= i < final(self).listing().len() ==> (i < final(self).at() <==> crate::place::place_lt(
                    final(self).order(),
                    crate::memtable::entry_place(#[trigger] final(self).listing()[i]),
                    (user_key@, u64::MAX),
                )),
            final(self).live() == (final(self).at() < final(self).listing().len()),
    {
        self.seek_ge(user_key, u64::MAX);
    }

    /// Stand at the first entry at or after `(user_key, seq)`.
    pub fn seek_ge(&mut self, user_key: &[u8], seq: u64)
        requires
            old(self).valid_iter(),
        ensures
            final(self).valid_iter(),
            final(self).listing() == old(self).listing(),
            final(self).order() == old(self).order(),
            forall|i: int|
                0 <= i < final(self).listing().len() ==> (i < final(self).at() <==> crate::place::place_lt(
                    final(self).order(),
                    crate::memtable::entry_place(#[trigger] final(self).listing()[i]),
                    (user_key@, seq),
                )),
            final(self).live() == (final(self).at() < final(self).listing().len()),
    {
        let ghost es = self.entries@;
        let ghost ord = self.ord;
        let ghost p = (user_key@, seq);
        let mut lo: usize = 0;
        let mut hi: usize = self.entries.len();
        proof {
            crate::place::lemma_places(ord, true);
        }
        while lo < hi
            invariant
                lo <= hi <= es.len(),
                *self == *old(self),
                es == self.entries@,
                ord == self.ord,
                p == (user_key@, seq),
                sorted(ord, es),
                forall|i: int| 0 <= i < lo ==> crate::place::place_lt(ord, crate::memtable::entry_place(#[trigger] es[i]), p),
                forall|i: int| hi <= i < es.len() ==> !crate::place::place_lt(ord, crate::memtable::entry_place(#[trigger] es[i]), p),
            decreases hi - lo,
        {
            let mid = lo + (hi - lo) / 2;
            let e = &self.entries[mid];
            let o = compare_places(&self.ord, e.user_key.as_slice(), e.seq, user_key, seq);
            proof {
                crate::place::lemma_places(ord, true);
                let q = crate::memtable::entry_place(es[mid as int]);
                assert forall|i: int| 0 <= i < mid && crate::place::place_lt(ord, q, p) implies crate::place::place_lt(
                    ord,
                    crate::memtable::entry_place(#[trigger] es[i]),
                    p,
                ) by {
                    let x = crate::memtable::entry_place(es[i]);
                    assert(crate::place::leads(ord, true, x, q));
                    assert(crate::place::leads(ord, true, q, p));
                    assert(crate::place::leads(ord, true, x, p));
                }
                assert forall|i: int| mid < i < es.len() && !crate::place::place_lt(ord, q, p) implies !crate::place::place_lt(
                    ord,
                    crate::memtable::entry_place(#[trigger] es[i]),
                    p,
                ) by {
                    let x = crate::memtable::entry_place(es[i]);
                    assert(crate::place::leads(ord, true, q, x));
                    if crate::place::leads(ord, true, x, p) {
                        assert(crate::place::leads(ord, true, q, p));
                    }
                }
            }
            if o.is_lt() {
                lo = mid + 1;
            } else {
                hi = mid;
            }
        }
        self.pos = lo;
        self.valid = lo < self.entries.len();
    }

    /// Stand at the last entry at or before `(user_key, seq)`.
    pub fn seek_le(&mut self, user_key: &[u8], seq: u64)
        requires
            old(self).valid_iter(),
        ensures
            final(self).valid_iter(),
            final(self).listing() == old(self).listing(),
            final(self).order() == old(self).order(),
            forall|i: int|
                0 <= i < final(self).listing().len() ==> ((final(self).live() && i <= final(self).at()) <==> !crate::place::place_lt(
                    final(self).order(),
                    (user_key@, seq),
                    crate::memtable::entry_place(#[trigger] final(self).listing()[i]),
                )),
            !final(self).live() ==> final(self).at() == 0,
    {
        self.seek_ge(user_key, seq);
        let ghost k = self.at();
        let ghost es = self.listing();
        let ghost ord = self.order();
        let ghost p = (user_key@, seq);
        proof {
            crate::place::lemma_places(ord, true);
            assert forall|i: int| 0 <= i < es.len() && i < k implies !crate::place::place_lt(
                ord,
                p,
                crate::memtable::entry_place(#[trigger] es[i]),
            ) by {
                let x = crate::memtable::entry_place(es[i]);
                assert(crate::place::leads(ord, true, x, p));
                assert(!crate::place::leads(ord, true, p, x));
            }
            assert forall|i: int| k < i < es.len() implies crate::place::place_lt(ord, p, crate::memtable::entry_place(#[trigger] es[i])) by {
                let x = crate::memtable::entry_place(es[i]);
                let q = crate::memtable::entry_place(es[k]);
                assert(crate::place::leads(ord, true, q, x));
                assert(!crate::place::leads(ord, true, q, p));
                assert(q == p || crate::place::leads(ord, true, p, q));
            }
        }
        if !self.valid() {
            self.seek_to_last();
        } else {
            let e = &self.entries[self.pos];
            let o = compare_places(&self.ord, e.user_key.as_slice(), e.seq, user_key, seq);
            proof {
                let q = crate::memtable::entry_place(es[k]);
                assert(!crate::place::leads(ord, true, p, p));
                assert(!crate::place::leads(ord, true, q, p));
                assert(q == p || crate::place::leads(ord, true, p, q));
            }
            if !o.is_eq() {
                self.prev();
            }
        }
    }

    /// Step to the next entry; past an end, stay there.
    pub fn next(&mut self)
        requires
            old(self).valid_iter(),
        ensures
            final(self).valid_iter(),
            final(self).listing() == old(self).listing(),
            final(self).order() == old(self).order(),
            !old(self).live() ==> final(self).at() == old(self).at() && !final(self).live(),
            old(self).live() ==> final(self).at() == old(self).at() + 1 && final(self).live() == (final(self).at() < final(self).listing().len()),
    {
        let n = self.entries.len();
        if self.valid() {
            self.pos += 1;
            self.valid = self.pos < n;
        }
    }

    /// Step to the previous entry; from the first one, past the end.
    pub fn prev(&mut self)
        requires
            old(self).valid_iter(),
        ensures
            final(self).valid_iter(),
            final(self).listing() == old(self).listing(),
            final(self).order() == old(self).order(),
            old(self).at() == 0 ==> final(self).at() == 0 && !final(self).live(),
            old(self).at() > 0 ==> final(self).at() == old(self).at() - 1 && final(self).live(),
    {
        if self.pos == 0 {
            self.valid = false;
        } else {
            self.pos -= 1;
            self.valid = true;
        }
    }

    /// The entry at which the iterator stands.
    pub fn entry(&self) -> (r: &Entry)
        requires
            self.at() < self.listing().len(),
            self.at() >= 0,
        ensures
            *r == self.listing()[self.at()],
    {
        &self.entries[self.pos]
    }

    pub fn user_key(&self) -> (r: &[u8])
        requires
            0 <= self.at() < self.listing().len(),
        ensures
            r@ == self.listing()[self.at()].user_key@,
    {
        self.entries[self.pos].user_key.as_slice()
    }

    /// The first eight bytes of the key.
    pub fn key_prefix(&self) -> (r: u64)
        requires
            0 <= self.at() < self.listing().len(),
        ensures
            r == crate::key_prefix::prefix_value(self.listing()[self.at()].user_key@, 0),
    {
        key_prefix8(self.entries[self.pos].user_key.as_slice())
    }

    pub fn seq(&self) -> (r: u64)
        requires
            0 <= self.at() < self.listing().len(),
        ensures
            r == self.listing()[self.at()].seq,
    {
        self.entries[self.pos].seq
    }

    pub fn ttl(&self) -> (r: i64)
        requires
            0 <= self.at() < self.listing().len(),
        ensures
            r == self.listing()[self.at()].ttl,
    {
        self.entries[self.pos].ttl
    }

    pub fn is_tombstone(&self) -> (r: bool)
        requires
            0 <= self.at() < self.listing().len(),
        ensures
            r == self.listing()[self.at()].tombstone,
    {
        self.entries[self.pos].tombstone
    }

    pub fn value(&self) -> (r: Vec<u8>)
        requires
            0 <= self.at() < self.listing().len(),
        ensures
            r@ == self.listing()[self.at()].value@,
    {
        copy_bytes(self.value_ref())
    }

    /// The value, borrowed.
    pub fn value_ref(&self) -> (r: &[u8])
        requires
            0 <= self.at() < self.listing().len(),
        ensures
            r@ == self.listing()[self.at()].value@,
    {
        self.entries[self.pos].value.as_slice()
    }
}

/// Of the entries of `m` in order, those in `s` stand from `lo` to `hi`: the
/// first and the last of `s` are the ends of that run.
proof fn lemma_run<C: KeyComparator>(ord: C, m: Map<Place, Payload>, es: Seq<Entry>, s: Set<Place>, lo: int, hi: int)
    requires
        crate::memtable::lists(ord, m, es),
        0 <= lo <= hi <= es.len(),
        forall|x: Place| #[trigger] s.contains(x) ==> m.dom().contains(x),
        forall|i: int| 0 <= i < es.len() ==> (s.contains(crate::memtable::entry_place(#[trigger] es[i])) <==> lo <= i < hi),
    ensures
        crate::place::first_of(ord, true, s, if lo < hi { Some(crate::memtable::entry_place(es[lo])) } else { None }),
        crate::place::first_of(ord, false, s, if lo < hi { Some(crate::memtable::entry_place(es[hi - 1])) } else { None }),
{
    crate::place::lemma_places(ord, true);
    assert forall|x: Place| #[trigger] s.contains(x) implies exists|i: int|
        lo <= i < hi && crate::memtable::entry_place(#[trigger] es[i]) == x by {
        assert(m.dom().contains(x));
        let i = choose|i: int| 0 <= i < es.len() && crate::memtable::entry_place(#[trigger] es[i]) == x;
        assert(lo <= i < hi);
    }
    if lo < hi {
        let a = crate::memtable::entry_place(es[lo]);
        let b = crate::memtable::entry_place(es[hi - 1]);
        assert(s.contains(a) && s.contains(b));
        assert forall|x: Place| #[trigger] s.contains(x) implies !crate::place::leads(ord, true, x, a) && !crate::place::leads(
            ord,
            false,
            x,
            b,
        ) by {
            let i = choose|i: int| lo <= i < hi && crate::memtable::entry_place(#[trigger] es[i]) == x;
            if lo < i {
                assert(crate::place::leads(ord, true, a, x));
            }
            if i < hi - 1 {
                assert(crate::place::leads(ord, true, x, b));
            }
            assert(!crate::place::leads(ord, true, b, x));
            assert(!crate::place::leads(ord, true, x, a));
        }
    }
}

enum ArenaIterState<'a, C: KeyComparator> {
    /// A merge of the shards.
    Lazy(MemMerge<'a, C>),
    /// A sorted copy, from the first step backward on.
    Snap(MemIterator<C>),
}

/// Walks the memtable: forward by merging its shards, and from the first
/// backward step on over a sorted copy.
pub struct LazyArenaIter<'a, C: KeyComparator> {
    mem: &'a Memtable<C>,
    state: ArenaIterState<'a, C>,
}

impl<'a, C: KeyComparator> LazyArenaIter<'a, C> {
    pub closed spec fn table(self) -> Memtable<C> {
        *self.mem
    }

    pub open spec fn contents(self) -> Map<Place, Payload> {
        self.table().contents()
    }

    pub open spec fn order(self) -> C {
        self.table().order()
    }

    /// Whether the iterator walks a copy.
    pub closed spec fn copied(self) -> bool {
        self.state is Snap
    }

    /// Whether the iterator walks a copy and stands just past its last entry,
    /// from where a backward step returns to it.
    pub closed spec fn past_last(self) -> bool {
        match self.state {
            ArenaIterState::Lazy(_) => false,
            ArenaIterState::Snap(it) => !it.live() && it.at() > 0,
        }
    }

    /// Where the iterator stands; nothing when it is past an end.
    pub closed spec fn place(self) -> Option<Place> {
        match self.state {
            ArenaIterState::Lazy(m) => m.place(),
            ArenaIterState::Snap(it) => it.place(),
        }
    }

    /// What is stored there.
    pub open spec fn payload(self) -> Payload {
        self.contents()[self.place()->0]
    }

    pub closed spec fn valid_iter(self) -> bool {
        &&& self.mem.valid()
        &&& match self.state {
            ArenaIterState::Lazy(m) => m.valid_merge() && m.table() == *self.mem,
            ArenaIterState::Snap(it) => {
                &&& it.valid_iter()
                &&& it.order() == self.mem.order()
                &&& crate::memtable::lists(self.mem.order(), self.mem.contents(), it.listing())
                &&& !it.live() && it.at() > 0 ==> it.at() == it.listing().len()
            },
        }
    }

    /// An iterator that stands nowhere.
    pub fn new(mem: &'a Memtable<C>) -> (r: LazyArenaIter<'a, C>)
        requires
            mem.valid(),
        ensures
            r.valid_iter(),
            r.table() == *mem,
            r.place() is None,
            !r.copied(),
            !r.past_last(),
    {
        LazyArenaIter { mem, state: ArenaIterState::Lazy(MemMerge::new(mem)) }
    }

    /// Whether the iterator stands at a version.
    pub fn valid(&self) -> (r: bool)
        requires
            self.valid_iter(),
        ensures
            r == self.place() is Some,
    {
        match &self.state {
            ArenaIterState::Lazy(m) => m.valid(),
            ArenaIterState::Snap(it) => it.valid(),
        }
    }

    fn copy(&self) -> (r: MemIterator<C>)
        requires
            self.valid_iter(),
        ensures
            r.valid_iter(),
            r.order() == self.order(),
            r.at() == 0,
            !r.live(),
            crate::memtable::lists(self.order(), self.contents(), r.listing()),
    {
        MemIterator::new(self.mem.snapshot(), self.mem.comparator().duplicate())
    }

    pub fn seek_to_first(&mut self)
        requires
            old(self).valid_iter(),
        ensures
            final(self).valid_iter(),
            final(self).table() == old(self).table(),
            final(self).copied() == old(self).copied(),
            !final(self).past_last(),
            crate::place::first_of(final(self).order(), true, final(self).contents().dom(), final(self).place()),
    {
        match &mut self.state {
            ArenaIterState::Lazy(m) => m.seek_to_first(),
            ArenaIterState::Snap(it) => {
                it.seek_to_first();
                proof {
                    let es = it.listing();
                    lemma_run(self.mem.order(), self.mem.contents(), es, self.mem.contents().dom(), 0, es.len() as int);
                }
            },
        }
    }

    pub fn seek_to_last(&mut self)
        requires
            old(self).valid_iter(),
        ensures
            final(self).valid_iter(),
            final(self).table() == old(self).table(),
            final(self).copied(),
            !final(self).past_last(),
            crate::place::first_of(final(self).order(), false, final(self).contents().dom(), final(self).place()),
    {
        let ghost m = self.mem.contents();
        let ghost ord = self.mem.order();
        if let ArenaIterState::Snap(it) = &mut self.state {
            it.seek_to_last();
            proof {
                let es = it.listing();
                lemma_run(ord, m, es, m.dom(), 0, es.len() as int);
            }
            return;
        }
        let mut it = self.copy();
        it.seek_to_last();
        proof {
            let es = it.listing();
            lemma_run(ord, m, es, m.dom(), 0, es.len() as int);
        }
        self.state = ArenaIterState::Snap(it);
    }

    /// Stand at the newest version of the first key at or after `user_key`.
    pub fn seek(&mut self, user_key: &[u8])
        requires
            old(self).valid_iter(),
        ensures
            final(self).valid_iter(),
            final(self).table() == old(self).table(),
            final(self).copied() == old(self).copied(),
            final(self).past_last() == (old(self).copied() && final(self).place() is None && !final(self).contents().dom().is_empty()),
            crate::place::first_of(
                final(self).order(),
                true,
                crate::place::beyond(final(self).order(), true, final(self).contents().dom(), (user_key@, u64::MAX), true),
                final(self).place(),
            ),
    {
        self.seek_ge(user_key, u64::MAX);
    }

    /// Stand at the first version at or after `(user_key, seq)`.
    pub fn seek_ge(&mut self, user_key: &[u8], seq: u64)
        requires
            old(self).valid_iter(),
        ensures
            final(self).valid_iter(),
            final(self).table() == old(self).table(),
            final(self).copied() == old(self).copied(),
            final(self).past_last() == (old(self).copied() && final(self).place() is None && !final(self).contents().dom().is_empty()),
            crate::place::first_of(
                final(self).order(),
                true,
                crate::place::beyond(final(self).order(), true, final(self).contents().dom(), (user_key@, seq), true),
                final(self).place(),
            ),
    {
        match &mut self.state {
            ArenaIterState::Lazy(m) => m.seek_ge(user_key, seq),
            ArenaIterState::Snap(it) => {
                it.seek_ge(user_key, seq);
                proof {
                    let es = it.listing();
                    let m = self.mem.contents();
                    let ord = self.mem.order();
                    let p = (user_key@, seq);
                    let s = crate::place::beyond(ord, true, m.dom(), p, true);
                    crate::place::lemma_places(ord, true);
                    assert forall|i: int| 0 <= i < es.len() implies (s.contains(crate::memtable::entry_place(#[trigger] es[i])) <==> it.at() <= i
                        < es.len()) by {
                        let x = crate::memtable::entry_place(es[i]);
                        assert(crate::memtable::is_entry(m, es[i]));
                        assert(x == p || crate::place::leads(ord, true, x, p) || crate::place::leads(ord, true, p, x));
                        assert(crate::place::leads(ord, true, x, p) ==> !crate::place::leads(ord, true, p, x));
                        assert(!crate::place::leads(ord, true, p, p));
                    }
                    lemma_run(ord, m, es, s, it.at(), es.len() as int);
                    lemma_some(ord, m, es);
                }
            },
        }
    }

    /// Stand at the last version at or before `(user_key, seq)`.
    pub fn seek_le(&mut self, user_key: &[u8], seq: u64)
        requires
            old(self).valid_iter(),
        ensures
            final(self).valid_iter(),
            final(self).table() == old(self).table(),
            final(self).copied(),
            !final(self).past_last(),
            crate::place::first_of(
                final(self).order(),
                false,
                crate::place::beyond(final(self).order(), false, final(self).contents().dom(), (user_key@, seq), true),
                final(self).place(),
            ),
    {
        let ghost m = self.mem.contents();
        let ghost ord = self.mem.order();
        let ghost p = (user_key@, seq);
        if let ArenaIterState::Snap(it) = &mut self.state {
            it.seek_le(user_key, seq);
            proof {
                lemma_le_run(ord, m, it.listing(), p, it.live(), it.at());
            }
            return;
        }
        let mut it = self.copy();
        it.seek_le(user_key, seq);
        proof {
            lemma_le_run(ord, m, it.listing(), p, it.live(), it.at());
        }
        self.state = ArenaIterState::Snap(it);
    }

    /// Step to the next version; past an end, stay there.
    pub fn next(&mut self)
        requires
            old(self).valid_iter(),
        ensures
            final(self).valid_iter(),
            final(self).table() == old(self).table(),
            final(self).copied() == old(self).copied(),
            match old(self).place() {
                None => final(self).place() is None && final(self).past_last() == old(self).past_last(),
                Some(p) => final(self).past_last() == (old(self).copied() && final(self).place() is None) && crate::place::first_of(
                    final(self).order(),
                    true,
                    crate::place::beyond(final(self).order(), true, final(self).contents().dom(), p, false),
                    final(self).place(),
                ),
            },
    {
        match &mut self.state {
            ArenaIterState::Lazy(m) => m.next(),
            ArenaIterState::Snap(it) => {
                let ghost k = it.at();
                let ghost moved = it.live();
                it.next();
                proof {
                    if moved {
                        let es = it.listing();
                        lemma_walk_follows_snapshot(self.mem.order(), self.mem.contents(), es, k);
                    }
                }
            },
        }
    }

    /// Step to the previous version; from the first one, past the end.
    pub fn prev(&mut self)
        requires
            old(self).valid_iter(),
        ensures
            final(self).valid_iter(),
            final(self).table() == old(self).table(),
            !final(self).past_last(),
            match old(self).place() {
                None => final(self).copied() == old(self).copied() && (if old(self).past_last() {
                    crate::place::first_of(final(self).order(), false, final(self).contents().dom(), final(self).place())
                } else {
                    final(self).place() is None
                }),
                Some(p) => final(self).copied() && crate::place::first_of(
                    final(self).order(),
                    false,
                    crate::place::beyond(final(self).order(), false, final(self).contents().dom(), p, false),
                    final(self).place(),
                ),
            },
    {
        let ghost m = self.mem.contents();
        let ghost ord = self.mem.order();
        if let ArenaIterState::Snap(it) = &mut self.state {
            let ghost k = it.at();
            let ghost stood = it.live();
            it.prev();
            proof {
                let es = it.listing();
                if stood {
                    lemma_walk_follows_snapshot(ord, m, es, k);
                } else {
                    lemma_run(ord, m, es, m.dom(), 0, es.len() as int);
                }
            }
            return;
        }
        let at = match &self.state {
            ArenaIterState::Lazy(l) => if l.valid() {
                let t = l.top();
                Some((copy_bytes(t.key.as_slice()), t.seq))
            } else {
                None
            },
            ArenaIterState::Snap(_) => None,
        };
        if let Some((key, seq)) = at {
            let ghost p = (key@, seq);
            let mut it = self.copy();
            it.seek_ge(key.as_slice(), seq);
            proof {
                let es = it.listing();
                assert(m.dom().contains(p));
                let j = choose|j: int| 0 <= j < es.len() && crate::memtable::entry_place(#[trigger] es[j]) == p;
                crate::place::lemma_places(ord, true);
                assert(!crate::place::leads(ord, true, p, p));
                if it.at() < j {
                    assert(crate::place::leads(ord, true, crate::memtable::entry_place(es[it.at()]), crate::memtable::entry_place(es[j])));
                }
                assert(it.at() == j);
                lemma_walk_follows_snapshot(ord, m, es, j);
            }
            it.prev();
            self.state = ArenaIterState::Snap(it);
        }
    }

    pub fn user_key(&self) -> (r: &[u8])
        requires
            self.valid_iter(),
            self.place() is Some,
        ensures
            r@ == (self.place()->0).0,
    {
        match &self.state {
            ArenaIterState::Lazy(m) => m.top().key.as_slice(),
            ArenaIterState::Snap(it) => it.user_key(),
        }
    }

    /// The first eight bytes of the key.
    pub fn key_prefix(&self) -> (r: u64)
        requires
            self.valid_iter(),
            self.place() is Some,
        ensures
            r == crate::key_prefix::prefix_value((self.place()->0).0, 0),
    {
        key_prefix8(self.user_key())
    }

    pub fn seq(&self) -> (r: u64)
        requires
            self.valid_iter(),
            self.place() is Some,
        ensures
            r == (self.place()->0).1,
    {
        match &self.state {
            ArenaIterState::Lazy(m) => m.top().seq,
            ArenaIterState::Snap(it) => it.seq(),
        }
    }

    pub fn ttl(&self) -> (r: i64)
        requires
            self.valid_iter(),
            self.place() is Some,
        ensures
            r == self.payload().ttl,
    {
        match &self.state {
            ArenaIterState::Lazy(m) => m.top().ttl,
            ArenaIterState::Snap(it) => {
                assert(crate::memtable::is_entry(self.contents(), it.listing()[it.at()]));
                it.ttl()
            },
        }
    }

    pub fn is_tombstone(&self) -> (r: bool)
        requires
            self.valid_iter(),
            self.place() is Some,
        ensures
            r == (self.payload().flags & flags::TOMBSTONE != 0),
    {
        match &self.state {
            ArenaIterState::Lazy(m) => m.top().flags & flags::TOMBSTONE != 0,
            ArenaIterState::Snap(it) => {
                assert(crate::memtable::is_entry(self.contents(), it.listing()[it.at()]));
                it.is_tombstone()
            },
        }
    }

    pub fn value(&self) -> (r: Vec<u8>)
        requires
            self.valid_iter(),
            self.place() is Some,
        ensures
            r@ == self.payload().value,
    {
        copy_bytes(self.value_ref())
    }

    /// The value, borrowed.
    pub fn value_ref(&self) -> (r: &[u8])
        requires
            self.valid_iter(),
            self.place() is Some,
        ensures
            r@ == self.payload().value,
    {
        match &self.state {
            ArenaIterState::Lazy(m) => m.top().value.as_slice(),
            ArenaIterState::Snap(it) => {
                assert(crate::memtable::is_entry(self.contents(), it.listing()[it.at()]));
                it.value_ref()
            },
        }
    }
}

proof fn lemma_some<C: KeyComparator>(ord: C, m: Map<Place, Payload>, es: Seq<Entry>)
    requires
        crate::memtable::lists(ord, m, es),
    ensures
        m.dom().is_empty() <==> es.len() == 0,
{
    if es.len() > 0 {
        assert(crate::memtable::is_entry(m, es[0]));
        assert(m.dom().contains(crate::memtable::entry_place(es[0])));
    }
    if es.len() == 0 {
        assert(m.dom() =~= Set::empty());
    }
}

proof fn lemma_le_run<C: KeyComparator>(ord: C, m: Map<Place, Payload>, es: Seq<Entry>, p: Place, live: bool, at: int)
    requires
        crate::memtable::lists(ord, m, es),
        live ==> 0 <= at < es.len(),
        forall|i: int|
            0 <= i < es.len() ==> ((live && i <= at) <==> !crate::place::place_lt(ord, p, crate::memtable::entry_place(#[trigger] es[i]))),
    ensures
        crate::place::first_of(
            ord,
            false,
            crate::place::beyond(ord, false, m.dom(), p, true),
            if live { Some(crate::memtable::entry_place(es[at])) } else { None },
        ),
{
    let s = crate::place::beyond(ord, false, m.dom(), p, true);
    let hi = if live { at + 1 } else { 0 };
    crate::place::lemma_places(ord, true);
    assert forall|i: int| 0 <= i < es.len() implies (s.contains(crate::memtable::entry_place(#[trigger] es[i])) <==> 0 <= i < hi) by {
        let x = crate::memtable::entry_place(es[i]);
        assert(crate::memtable::is_entry(m, es[i]));
        assert(x == p || crate::place::leads(ord, true, x, p) || crate::place::leads(ord, true, p, x));
        assert(crate::place::leads(ord, true, x, p) ==> !crate::place::leads(ord, true, p, x));
        assert(!crate::place::leads(ord, true, p, p));
    }
    lemma_run(ord, m, es, s, 0, hi);
}

/// A walk visits the entries of a snapshot one after the other: from the
/// `k`-th entry, a step forward goes to the next one and a step backward to
/// the previous one.
pub proof fn lemma_walk_follows_snapshot<C: KeyComparator>(ord: C, m: Map<Place, Payload>, es: Seq<Entry>, k: int)
    requires
        crate::memtable::lists(ord, m, es),
        0 <= k < es.len(),
    ensures
        crate::place::first_of(
            ord,
            true,
            crate::place::beyond(ord, true, m.dom(), crate::memtable::entry_place(es[k]), false),
            if k + 1 < es.len() { Some(crate::memtable::entry_place(es[k + 1])) } else { None },
        ),
        crate::place::first_of(
            ord,
            false,
            crate::place::beyond(ord, false, m.dom(), crate::memtable::entry_place(es[k]), false),
            if k > 0 { Some(crate::memtable::entry_place(es[k - 1])) } else { None },
        ),
{
    let p = crate::memtable::entry_place(es[k]);
    let up = crate::place::beyond(ord, true, m.dom(), p, false);
    let down = crate::place::beyond(ord, false, m.dom(), p, false);
    crate::place::lemma_places(ord, true);
    assert(!crate::place::leads(ord, true, p, p));
    assert forall|i: int| 0 <= i < es.len() implies (up.contains(crate::memtable::entry_place(#[trigger] es[i])) <==> k + 1 <= i < es.len()) by {
        let x = crate::memtable::entry_place(es[i]);
        assert(crate::memtable::is_entry(m, es[i]));
        if i < k {
            assert(crate::place::leads(ord, true, x, p));
        } else if i > k {
            assert(crate::place::leads(ord, true, p, x));
        }
    }
    assert forall|i: int| 0 <= i < es.len() implies (down.contains(crate::memtable::entry_place(#[trigger] es[i])) <==> 0 <= i < k) by {
        let x = crate::memtable::entry_place(es[i]);
        assert(crate::memtable::is_entry(m, es[i]));
        if i < k {
            assert(crate::place::leads(ord, true, x, p));
        } else if i > k {
            assert(crate::place::leads(ord, true, p, x));
        }
    }
    lemma_run(ord, m, es, up, k + 1, es.len() as int);
    lemma_run(ord, m, es, down, 0, k);
}

} // verus!
