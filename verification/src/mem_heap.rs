//! A binary heap of cursors: the one whose item leads the others is on top.

use vstd::prelude::*;

use crate::comparator::KeyComparator;
use crate::key_prefix::{compare_prefixed, key_prefix8};
use crate::place::{finish_comparison, Item, Place};

verus! {

pub open spec fn spot(curs: Seq<Option<Item>>, i: int) -> Place {
    curs[i]->0.place()
}

/// Whether the heap holds each cursor that stands at an item, once.
pub open spec fn holds_all(curs: Seq<Option<Item>>, heap: Seq<usize>) -> bool {
    &&& forall|k: int| 0 <= k < heap.len() ==> (#[trigger] heap[k]) < curs.len() && curs[heap[k] as int] is Some
    &&& forall|j: int, k: int| 0 <= j < k < heap.len() ==> #[trigger] heap[j] != #[trigger] heap[k]
    &&& forall|i: int| 0 <= i < curs.len() && (#[trigger] curs[i]) is Some ==> heap.contains(i as usize)
}

/// Whether the `k`-th cursor does not lead its parent.
pub open spec fn in_order<C: KeyComparator>(ord: C, forward: bool, curs: Seq<Option<Item>>, heap: Seq<usize>, k: int) -> bool {
    !crate::place::leads(ord, forward, spot(curs, heap[k] as int), spot(curs, heap[(k - 1) / 2] as int))
}

/// The heap order below the parents from `lo` on.
pub open spec fn ordered_from<C: KeyComparator>(ord: C, forward: bool, curs: Seq<Option<Item>>, heap: Seq<usize>, lo: int) -> bool {
    forall|k: int| 0 < k < heap.len() && (k - 1) / 2 >= lo ==> #[trigger] in_order(ord, forward, curs, heap, k)
}

/// No cursor leads the one on top.
pub proof fn lemma_top<C: KeyComparator>(ord: C, forward: bool, curs: Seq<Option<Item>>, heap: Seq<usize>, k: int)
    requires
        ordered_from(ord, forward, curs, heap, 0),
        0 <= k < heap.len(),
    ensures
        !crate::place::leads(ord, forward, spot(curs, heap[k] as int), spot(curs, heap[0] as int)),
    decreases k,
{
    crate::place::lemma_places(ord, forward);
    let a = spot(curs, heap[k] as int);
    let c = spot(curs, heap[0] as int);
    if k > 0 {
        let b = spot(curs, heap[(k - 1) / 2] as int);
        assert(in_order(ord, forward, curs, heap, k));
        lemma_top(ord, forward, curs, heap, (k - 1) / 2);
        assert(a == b || crate::place::leads(ord, forward, b, a));
        assert(b == c || crate::place::leads(ord, forward, c, b));
        if crate::place::leads(ord, forward, a, c) {
            assert(!crate::place::leads(ord, forward, c, a));
        }
    } else {
        assert(!crate::place::leads(ord, forward, a, a));
    }
}

/// Whether `a` leads `b`.
pub fn before<C: KeyComparator>(ord: &C, bytewise: bool, forward: bool, a: &Item, b: &Item) -> (r: bool)
    requires
        bytewise ==> forall|x: Seq<u8>, y: Seq<u8>| #[trigger] ord.le(x, y) == crate::comparator::bytes_le(x, y),
    ensures
        r == crate::place::leads(*ord, forward, a.place(), b.place()),
{
    let ka = a.key.as_slice();
    let kb = b.key.as_slice();
    let o = if bytewise {
        proof {
            assert(ord.le(ka@, kb@) == crate::comparator::bytes_le(ka@, kb@));
            assert(ord.le(kb@, ka@) == crate::comparator::bytes_le(kb@, ka@));
        }
        compare_prefixed(key_prefix8(ka), ka, key_prefix8(kb), kb)
    } else {
        ord.compare(ka, kb)
    };
    let full = finish_comparison(ord, o, ka, a.seq, kb, b.seq);
    if forward {
        full.is_lt()
    } else {
        full.is_gt()
    }
}

fn leads_at<C: KeyComparator>(ord: &C, bytewise: bool, forward: bool, curs: &Vec<Option<Item>>, a: usize, b: usize) -> (r: bool)
    requires
        bytewise ==> forall|x: Seq<u8>, y: Seq<u8>| #[trigger] ord.le(x, y) == crate::comparator::bytes_le(x, y),
        a < curs@.len(),
        b < curs@.len(),
        curs@[a as int] is Some,
        curs@[b as int] is Some,
    ensures
        r == crate::place::leads(*ord, forward, spot(curs@, a as int), spot(curs@, b as int)),
{
    match (&curs[a], &curs[b]) {
        (Some(x), Some(y)) => before(ord, bytewise, forward, x, y),
        _ => false,
    }
}

proof fn lemma_swapped(curs: Seq<Option<Item>>, h0: Seq<usize>, h1: Seq<usize>, i: int, j: int)
    requires
        holds_all(curs, h0),
        0 <= i < h0.len(),
        0 <= j < h0.len(),
        i != j,
        h1 == h0.update(i, h0[j]).update(j, h0[i]),
    ensures
        holds_all(curs, h1),
{
    assert forall|x: int| 0 <= x < curs.len() && (#[trigger] curs[x]) is Some implies h1.contains(x as usize) by {
        let k = choose|k: int| 0 <= k < h0.len() && h0[k] == x as usize;
        let m = if k == i { j } else if k == j { i } else { k };
        assert(h1[m] == x as usize);
    }
}

/// Sink the cursor at `lo` to where it belongs.
#[verifier::rlimit(40)]
pub fn heap_down<C: KeyComparator>(ord: &C, bytewise: bool, forward: bool, curs: &Vec<Option<Item>>, heap: &mut Vec<usize>, lo: usize)
    requires
        bytewise ==> forall|x: Seq<u8>, y: Seq<u8>| #[trigger] ord.le(x, y) == crate::comparator::bytes_le(x, y),
        holds_all(curs@, old(heap)@),
        ordered_from(*ord, forward, curs@, old(heap)@, lo + 1),
        lo < old(heap)@.len(),
        old(heap)@.len() <= 0x1000_0000,
    ensures
        holds_all(curs@, final(heap)@),
        ordered_from(*ord, forward, curs@, final(heap)@, lo as int),
        final(heap)@.len() == old(heap)@.len(),
{
    let n = heap.len();
    let mut i: usize = lo;
    loop
        invariant
            bytewise ==> forall|x: Seq<u8>, y: Seq<u8>| #[trigger] ord.le(x, y) == crate::comparator::bytes_le(x, y),
            holds_all(curs@, heap@),
            lo <= i < n,
            n == heap@.len(),
            n == old(heap)@.len(),
            n <= 0x1000_0000,
            forall|k: int| 0 < k < n && (k - 1) / 2 >= lo && (k - 1) / 2 != i ==> #[trigger] in_order(*ord, forward, curs@, heap@, k),
            i > lo ==> (i - 1) / 2 >= lo && forall|k: int|
                0 < k < n && (k - 1) / 2 == i ==> !crate::place::leads(
                    *ord,
                    forward,
                    spot(curs@, #[trigger] heap@[k] as int),
                    spot(curs@, heap@[(i - 1) / 2] as int),
                ),
        decreases n - i,
    {
        let l = 2 * i + 1;
        let r = 2 * i + 2;
        let mut best: usize = i;
        proof {
            crate::place::lemma_places(*ord, forward);
        }
        if l < n && leads_at(ord, bytewise, forward, curs, heap[l], heap[best]) {
            best = l;
        }
        if r < n && leads_at(ord, bytewise, forward, curs, heap[r], heap[best]) {
            best = r;
        }
        let ghost h0 = heap@;
        let ghost pi = spot(curs@, h0[i as int] as int);
        let ghost pb = spot(curs@, h0[best as int] as int);
        proof {
            assert(!crate::place::leads(*ord, forward, pi, pi));
            assert(!crate::place::leads(*ord, forward, pb, pb));
            assert forall|k: int| 0 < k < n && (k - 1) / 2 == i implies !crate::place::leads(
                *ord,
                forward,
                spot(curs@, #[trigger] h0[k] as int),
                pb,
            ) by {
                assert(k == l || k == r);
                let pl = spot(curs@, h0[l as int] as int);
                if k == l && best == r {
                    let pr = spot(curs@, h0[r as int] as int);
                    if crate::place::leads(*ord, forward, pl, pi) {
                        assert(crate::place::leads(*ord, forward, pr, pl));
                    } else {
                        assert(crate::place::leads(*ord, forward, pr, pi));
                        if crate::place::leads(*ord, forward, pl, pr) {
                            assert(crate::place::leads(*ord, forward, pl, pi));
                        }
                    }
                }
            }
        }
        if best == i {
            proof {
                assert forall|k: int| 0 < k < n && (k - 1) / 2 >= lo implies #[trigger] in_order(*ord, forward, curs@, heap@, k) by {
                    if (k - 1) / 2 == i {
                        assert(!crate::place::leads(*ord, forward, spot(curs@, h0[k] as int), pb));
                    }
                }
            }
            return;
        }
        let a = heap[i];
        let b = heap[best];
        heap.set(i, b);
        heap.set(best, a);
        proof {
            lemma_swapped(curs@, h0, heap@, i as int, best as int);
            let h1 = heap@;
            assert forall|k: int| 0 < k < n && (k - 1) / 2 >= lo && (k - 1) / 2 != best implies #[trigger] in_order(*ord, forward, curs@, h1, k) by {
                let q = (k - 1) / 2;
                if q == i {
                    // The children of `i` do not lead what came up.
                    if k == best {
                        assert(crate::place::leads(*ord, forward, pb, pi));
                    } else {
                        assert(h1[k] == h0[k]);
                        assert(!crate::place::leads(*ord, forward, spot(curs@, h0[k] as int), pb));
                    }
                } else if k == i {
                    // What came up was a child of `i` and does not lead the parent of `i`.
                    assert(i > lo);
                    assert((best - 1) / 2 == i);
                    assert(!crate::place::leads(*ord, forward, spot(curs@, h0[best as int] as int), spot(curs@, h0[(i - 1) / 2] as int)));
                    assert(h1[(i - 1) / 2] == h0[(i - 1) / 2]);
                } else {
                    assert(in_order(*ord, forward, curs@, h0, k));
                    assert(h1[k] == h0[k]);
                    assert(h1[q] == h0[q]);
                }
            }
            assert((best - 1) / 2 == i);
            assert forall|k: int| 0 < k < n && (k - 1) / 2 == best implies !crate::place::leads(
                *ord,
                forward,
                spot(curs@, #[trigger] h1[k] as int),
                spot(curs@, h1[i as int] as int),
            ) by {
                assert(in_order(*ord, forward, curs@, h0, k));
                assert(h1[k] == h0[k]);
            }
        }
        i = best;
    }
}

/// The heap of the cursors that stand at an item.
pub fn build<C: KeyComparator>(ord: &C, bytewise: bool, forward: bool, curs: &Vec<Option<Item>>) -> (r: Vec<usize>)
    requires
        bytewise ==> forall|x: Seq<u8>, y: Seq<u8>| #[trigger] ord.le(x, y) == crate::comparator::bytes_le(x, y),
        curs@.len() <= 0x1000_0000,
    ensures
        holds_all(curs@, r@),
        ordered_from(*ord, forward, curs@, r@, 0),
        r@.len() <= curs@.len(),
{
    let mut heap: Vec<usize> = Vec::new();
    let mut i: usize = 0;
    while i < curs.len()
        invariant
            i <= curs@.len(),
            heap@.len() <= i,
            forall|k: int| 0 <= k < heap@.len() ==> (#[trigger] heap@[k]) < i && curs@[heap@[k] as int] is Some,
            forall|j: int, k: int| 0 <= j < k < heap@.len() ==> #[trigger] heap@[j] != #[trigger] heap@[k],
            forall|x: int| 0 <= x < i && (#[trigger] curs@[x]) is Some ==> heap@.contains(x as usize),
        decreases curs@.len() - i,
    {
        if curs[i].is_some() {
            let ghost h0 = heap@;
            heap.push(i);
            proof {
                assert(heap@[h0.len() as int] == i);
                assert forall|x: int| 0 <= x < i + 1 && (#[trigger] curs@[x]) is Some implies heap@.contains(x as usize) by {
                    if x < i {
                        let k = choose|k: int| 0 <= k < h0.len() && h0[k] == x as usize;
                        assert(heap@[k] == x as usize);
                    }
                }
            }
        }
        i += 1;
    }
    let n = heap.len();
    let mut lo: usize = n / 2;
    proof {
        assert forall|k: int| 0 < k < n && (k - 1) / 2 >= lo implies #[trigger] in_order(*ord, forward, curs@, heap@, k) by {
            assert(false);
        }
    }
    while lo > 0
        invariant
            bytewise ==> forall|x: Seq<u8>, y: Seq<u8>| #[trigger] ord.le(x, y) == crate::comparator::bytes_le(x, y),
            n == heap@.len(),
            n <= 0x1000_0000,
            lo <= n / 2,
            holds_all(curs@, heap@),
            ordered_from(*ord, forward, curs@, heap@, lo as int),
        decreases lo,
    {
        lo -= 1;
        heap_down(ord, bytewise, forward, curs, &mut heap, lo);
    }
    heap
}

} // verus!
