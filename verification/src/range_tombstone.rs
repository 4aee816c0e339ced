//! Range deletes: the live set a memtable holds, the disjoint fragments a
//! table stores, and the mask a read consults.

use vstd::prelude::*;
use vstd::string::StringExecFns;

use crate::comparator::Comparator;
use crate::edit_write::append_bytes;
use crate::encoding::{append_uvarint, copy_bytes};
use crate::error::OndaError;
use crate::reader::{take_prefixed, take_uvarint, take_uvarints};

verus! {

// ---------------------------------------------------------------------------
// Spans and fragments
// ---------------------------------------------------------------------------

/// One range delete: `[start, end)` at `seq`.
#[derive(Debug, Clone, PartialEq, Eq)]
pub struct Span {
    pub start: Vec<u8>,
    pub end: Vec<u8>,
    pub seq: u64,
}

#[verifier::ext_equal]
pub struct SpanView {
    pub start: Seq<u8>,
    pub end: Seq<u8>,
    pub seq: u64,
}

impl View for Span {
    type V = SpanView;

    open spec fn view(&self) -> SpanView {
        SpanView { start: self.start@, end: self.end@, seq: self.seq }
    }
}

pub open spec fn span_views(s: Seq<Span>) -> Seq<SpanView> {
    s.map_values(|x: Span| x@)
}

/// A half-open interval and every sequence that deletes it, newest first.
#[derive(Debug, Clone, PartialEq, Eq)]
pub struct Fragment {
    pub start: Vec<u8>,
    /// Exclusive: `end` itself is not deleted.
    pub end: Vec<u8>,
    /// Strictly descending.
    pub seqs: Vec<u64>,
}

#[verifier::ext_equal]
pub struct FragmentView {
    pub start: Seq<u8>,
    pub end: Seq<u8>,
    pub seqs: Seq<u64>,
}

impl View for Fragment {
    type V = FragmentView;

    open spec fn view(&self) -> FragmentView {
        FragmentView { start: self.start@, end: self.end@, seqs: self.seqs@ }
    }
}

pub open spec fn fragment_views(s: Seq<Fragment>) -> Seq<FragmentView> {
    s.map_values(|x: Fragment| x@)
}

/// Whether `[start, end)` holds `key`.
pub open spec fn within<C: Comparator>(c: C, start: Seq<u8>, end: Seq<u8>, key: Seq<u8>) -> bool {
    c.le(start, key) && !c.le(end, key)
}

/// Whether a span at `seq` deletes `key`.
pub open spec fn span_deletes<C: Comparator>(c: C, spans: Seq<SpanView>, key: Seq<u8>, seq: u64) -> bool {
    exists|i: int|
        0 <= i < spans.len() && (#[trigger] spans[i]).seq == seq && within(c, spans[i].start, spans[i].end, key)
}

/// Whether a fragment that carries `seq` deletes `key`.
pub open spec fn fragment_deletes<C: Comparator>(c: C, frags: Seq<FragmentView>, key: Seq<u8>, seq: u64) -> bool {
    exists|i: int|
        0 <= i < frags.len() && (#[trigger] frags[i]).seqs.contains(seq) && within(
            c,
            frags[i].start,
            frags[i].end,
            key,
        )
}

/// `r` is the newest sequence, at or below `read_seq`, of a span that deletes
/// `key`; nothing if there is none.
pub open spec fn newest_span<C: Comparator>(
    c: C,
    spans: Seq<SpanView>,
    key: Seq<u8>,
    read_seq: u64,
    r: Option<u64>,
) -> bool {
    match r {
        Some(x) => span_deletes(c, spans, key, x) && x <= read_seq && forall|y: u64|
            #[trigger] span_deletes(c, spans, key, y) && y <= read_seq ==> y <= x,
        None => forall|y: u64| #[trigger] span_deletes(c, spans, key, y) ==> y > read_seq,
    }
}

/// `r` is the newest sequence, at or below `read_seq`, of a fragment that
/// deletes `key`; nothing if there is none.
pub open spec fn newest_fragment<C: Comparator>(
    c: C,
    frags: Seq<FragmentView>,
    key: Seq<u8>,
    read_seq: u64,
    r: Option<u64>,
) -> bool {
    match r {
        Some(x) => fragment_deletes(c, frags, key, x) && x <= read_seq && forall|y: u64|
            #[trigger] fragment_deletes(c, frags, key, y) && y <= read_seq ==> y <= x,
        None => forall|y: u64| #[trigger] fragment_deletes(c, frags, key, y) ==> y > read_seq,
    }
}

/// Newest first, none twice.
pub open spec fn descending(s: Seq<u64>) -> bool {
    forall|i: int, j: int| 0 <= i < j < s.len() ==> #[trigger] s[i] > #[trigger] s[j]
}

/// Fragments in order, disjoint, each with its sequences newest first.
pub open spec fn fragments_ordered<C: Comparator>(c: C, frags: Seq<FragmentView>) -> bool {
    &&& forall|i: int| 0 <= i < frags.len() ==> crate::comparator::key_lt(c, (#[trigger] frags[i]).start, frags[i].end)
    &&& forall|i: int| 0 <= i < frags.len() ==> (#[trigger] frags[i]).seqs.len() > 0 && descending(frags[i].seqs)
    &&& forall|i: int, j: int| 0 <= i < j < frags.len() ==> c.le((#[trigger] frags[i]).end, (#[trigger] frags[j]).start)
}

/// Fragments one behind the other, each with its sequences newest first. The
/// first alone may end where it starts, or before: it deletes nothing, and the
/// ends ascend all the same.
pub open spec fn fragments_apart<C: Comparator>(c: C, frags: Seq<FragmentView>) -> bool {
    &&& forall|i: int| 0 < i < frags.len() ==> crate::comparator::key_lt(c, (#[trigger] frags[i]).start, frags[i].end)
    &&& forall|i: int| 0 <= i < frags.len() ==> (#[trigger] frags[i]).seqs.len() > 0 && descending(frags[i].seqs)
    &&& forall|i: int, j: int| 0 <= i < j < frags.len() ==> c.le((#[trigger] frags[i]).end, (#[trigger] frags[j]).start)
}

impl Fragment {
    /// The newest sequence; 0 for a fragment without one.
    pub fn max_seq(&self) -> (r: u64)
        ensures
            r == (if self.seqs@.len() > 0 { self.seqs@[0] } else { 0 }),
            descending(self.seqs@) ==> forall|i: int| 0 <= i < self.seqs@.len() ==> #[trigger] self.seqs@[i] <= r,
    {
        if self.seqs.len() > 0 { self.seqs[0] } else { 0 }
    }

    /// The oldest sequence; 0 for a fragment without one.
    pub fn min_seq(&self) -> (r: u64)
        ensures
            r == (if self.seqs@.len() > 0 { self.seqs@.last() } else { 0 }),
            descending(self.seqs@) ==> forall|i: int| 0 <= i < self.seqs@.len() ==> r <= #[trigger] self.seqs@[i],
    {
        if self.seqs.len() > 0 { self.seqs[self.seqs.len() - 1] } else { 0 }
    }

    /// The newest sequence at or below `read_seq`.
    fn visible_seq(&self, read_seq: u64) -> (r: Option<u64>)
        requires
            descending(self.seqs@),
        ensures
            match r {
                Some(x) => self.seqs@.contains(x) && x <= read_seq && forall|y: u64|
                    #[trigger] self.seqs@.contains(y) && y <= read_seq ==> y <= x,
                None => forall|y: u64| #[trigger] self.seqs@.contains(y) ==> y > read_seq,
            },
    {
        let mut i: usize = 0;
        while i < self.seqs.len()
            invariant
                i <= self.seqs@.len(),
                descending(self.seqs@),
                forall|j: int| 0 <= j < i ==> #[trigger] self.seqs@[j] > read_seq,
            decreases self.seqs@.len() - i,
        {
            let s = self.seqs[i];
            if s <= read_seq {
                assert forall|y: u64| #[trigger] self.seqs@.contains(y) && y <= read_seq implies y <= s by {
                    let j = choose|j: int| 0 <= j < self.seqs@.len() && self.seqs@[j] == y;
                    if j > i {
                        assert(self.seqs@[i as int] > self.seqs@[j]);
                    }
                }
                return Some(s);
            }
            i += 1;
        }
        None
    }

    /// A copy.
    pub fn duplicate(&self) -> (r: Fragment)
        ensures
            r@ == self@,
    {
        Fragment { start: self.start.clone(), end: self.end.clone(), seqs: self.seqs.clone() }
    }
}

// ---------------------------------------------------------------------------
// The live set
// ---------------------------------------------------------------------------

/// The range deletes a memtable holds beside its points, ordered by start.
pub struct RangeTombstoneSet<C: Comparator> {
    ord: C,
    spans: Vec<Span>,
    /// At `i` a key that no end of the first `i + 1` spans is past: a backward
    /// walk can stop at a key that is not below it.
    prefix_max_end: Vec<Vec<u8>>,
}

impl<C: Comparator> RangeTombstoneSet<C> {
    /// The spans, ordered by start.
    pub closed spec fn spans(self) -> Seq<SpanView> {
        span_views(self.spans@)
    }

    /// The order of the keys.
    pub closed spec fn order(self) -> C {
        self.ord
    }

    /// Ordered by start, with an upper bound of all ends so far at each span.
    pub closed spec fn valid(self) -> bool {
        &&& forall|i: int, j: int| 0 <= i < j < self.spans@.len() ==> self.ord.le(
            (#[trigger] self.spans@[i]).start@,
            (#[trigger] self.spans@[j]).start@,
        )
        &&& self.prefix_max_end@.len() == self.spans@.len()
        &&& forall|i: int, j: int| 0 <= j <= i < self.spans@.len() ==> self.ord.le(
            (#[trigger] self.spans@[j]).end@,
            (#[trigger] self.prefix_max_end@[i])@,
        )
    }

    /// A set of no spans.
    pub fn new(ord: C) -> (r: RangeTombstoneSet<C>)
        ensures
            r.valid(),
            r.order() == ord,
            r.spans() == Seq::<SpanView>::empty(),
    {
        let r = RangeTombstoneSet { ord, spans: Vec::new(), prefix_max_end: Vec::new() };
        assert(r.spans() =~= Seq::empty());
        r
    }

    /// Whether the set holds no span.
    pub fn is_empty(&self) -> (r: bool)
        ensures
            r == (self.spans().len() == 0),
    {
        self.spans.len() == 0
    }

    /// How many spans the set holds.
    pub fn len(&self) -> (r: usize)
        ensures
            r == self.spans().len(),
    {
        self.spans.len()
    }

    /// How many spans start at or before `key`.
    fn started(&self, key: &[u8]) -> (r: usize)
        requires
            self.valid(),
        ensures
            r <= self.spans@.len(),
            forall|j: int| 0 <= j < r ==> self.ord.le((#[trigger] self.spans@[j]).start@, key@),
            forall|j: int| r <= j < self.spans@.len() ==> !self.ord.le((#[trigger] self.spans@[j]).start@, key@),
    {
        let mut lo: usize = 0;
        let mut hi: usize = self.spans.len();
        proof {
            crate::comparator::lemma_order(self.ord);
        }
        while lo < hi
            invariant
                lo <= hi <= self.spans@.len(),
                self.valid(),
                forall|a: Seq<u8>, b: Seq<u8>, d: Seq<u8>| #[trigger] self.ord.le(a, b) && #[trigger] self.ord.le(b, d) ==> self.ord.le(a, d),
                forall|j: int| 0 <= j < lo ==> self.ord.le((#[trigger] self.spans@[j]).start@, key@),
                forall|j: int| hi <= j < self.spans@.len() ==> !self.ord.le((#[trigger] self.spans@[j]).start@, key@),
            decreases hi - lo,
        {
            let mid = lo + (hi - lo) / 2;
            if self.ord.compare(self.spans[mid].start.as_slice(), key).is_le() {
                assert forall|j: int| 0 <= j < mid + 1 implies self.ord.le((#[trigger] self.spans@[j]).start@, key@) by {
                    if j < mid {
                        assert(self.ord.le(self.spans@[j].start@, self.spans@[mid as int].start@));
                    }
                }
                lo = mid + 1;
            } else {
                assert forall|j: int| mid <= j < self.spans@.len() implies !self.ord.le((#[trigger] self.spans@[j]).start@, key@) by {
                    if j > mid {
                        assert(self.ord.le(self.spans@[mid as int].start@, self.spans@[j].start@));
                    }
                }
                hi = mid;
            }
        }
        lo
    }

    /// Add `[start, end)` at `seq`, after every span that starts no later.
    pub fn add(&mut self, start: &[u8], end: &[u8], seq: u64)
        requires
            old(self).valid(),
        ensures
            final(self).valid(),
            final(self).order() == old(self).order(),
            exists|at: int|
                0 <= at <= old(self).spans().len() && #[trigger] old(self).spans().insert(
                    at,
                    SpanView { start: start@, end: end@, seq },
                ) == final(self).spans() && (forall|j: int|
                    0 <= j < at ==> old(self).order().le((#[trigger] old(self).spans()[j]).start, start@)) && (forall|
                    j: int,
                |
                    at <= j < old(self).spans().len() ==> !old(self).order().le(
                        (#[trigger] old(self).spans()[j]).start,
                        start@,
                    )),
    {
        let ghost s0 = self.spans@;
        let ghost set0 = *self;
        let at = self.started(start);
        proof {
            crate::comparator::lemma_order(self.ord);
        }
        self.spans.insert(at, Span { start: copy_bytes(start), end: copy_bytes(end), seq });
        self.prefix_max_end.truncate(at);
        proof {
            assert forall|i: int, j: int| 0 <= j <= i < at implies self.ord.le(
                (#[trigger] self.spans@[j]).end@,
                (#[trigger] self.prefix_max_end@[i])@,
            ) by {
                assert(s0[j] == self.spans@[j]);
            }
        }
        let mut i: usize = at;
        while i < self.spans.len()
            invariant
                at <= i <= self.spans@.len(),
                self.prefix_max_end@.len() == i,
                self.ord == set0.ord,
                self.spans@ == s0.insert(at as int, self.spans@[at as int]),
                at <= s0.len(),
                self.spans@[at as int]@ == (SpanView { start: start@, end: end@, seq }),
                forall|a: Seq<u8>| #[trigger] self.ord.le(a, a),
                forall|a: Seq<u8>, b: Seq<u8>| #[trigger] self.ord.le(a, b) || self.ord.le(b, a),
                forall|a: Seq<u8>, b: Seq<u8>, d: Seq<u8>| #[trigger] self.ord.le(a, b) && #[trigger] self.ord.le(b, d) ==> self.ord.le(a, d),
                forall|p: int, j: int| 0 <= j <= p < i ==> self.ord.le(
                    (#[trigger] self.spans@[j]).end@,
                    (#[trigger] self.prefix_max_end@[p])@,
                ),
            decreases self.spans@.len() - i,
        {
            let ghost pme0 = self.prefix_max_end@;
            let mut top = self.spans[i].end.clone();
            if i > 0 {
                if self.ord.compare(self.prefix_max_end[i - 1].as_slice(), top.as_slice()).is_ge() {
                    top = self.prefix_max_end[i - 1].clone();
                }
                assert(self.ord.le(pme0[i - 1]@, top@));
            }
            assert(self.ord.le(self.spans@[i as int].end@, top@));
            self.prefix_max_end.push(top);
            proof {
                assert forall|p: int, j: int| 0 <= j <= p < i + 1 implies self.ord.le(
                    (#[trigger] self.spans@[j]).end@,
                    (#[trigger] self.prefix_max_end@[p])@,
                ) by {
                    if p < i {
                        assert(self.prefix_max_end@[p] == pme0[p]);
                    } else if j < i {
                        assert(self.ord.le(self.spans@[j].end@, pme0[i - 1]@));
                    }
                }
            }
            i += 1;
        }
        proof {
            let new = SpanView { start: start@, end: end@, seq };
            assert forall|a: int, b: int| 0 <= a < b < self.spans@.len() implies self.ord.le(
                (#[trigger] self.spans@[a]).start@,
                (#[trigger] self.spans@[b]).start@,
            ) by {
                let x = if a < at { a } else { a - 1 };
                let y = if b < at { b } else { b - 1 };
                if a != at && b != at {
                    assert(self.spans@[a] == s0[x]);
                    assert(self.spans@[b] == s0[y]);
                } else if b == at {
                    assert(self.spans@[a] == s0[a]);
                } else {
                    assert(self.spans@[b] == s0[b - 1]);
                    assert(!self.ord.le(s0[b - 1].start@, start@));
                }
            }
            assert(set0.spans().insert(at as int, new) =~= self.spans());
            assert forall|j: int| 0 <= j < at implies set0.ord.le((#[trigger] set0.spans()[j]).start, start@) by {
                assert(set0.spans()[j] == s0[j]@);
            }
            assert forall|j: int| at <= j < set0.spans().len() implies !set0.ord.le((#[trigger] set0.spans()[j]).start, start@) by {
                assert(set0.spans()[j] == s0[j]@);
            }
        }
    }

    /// The newest sequence, at or below `read_seq`, of a span that deletes
    /// `key`.
    pub fn covering_seq(&self, key: &[u8], read_seq: u64) -> (r: Option<u64>)
        requires
            self.valid(),
        ensures
            newest_span(self.order(), self.spans(), key@, read_seq, r),
    {
        let ghost vs = self.spans();
        let n = self.started(key);
        proof {
            crate::comparator::lemma_order(self.ord);
        }
        let mut i: usize = n;
        let mut best: Option<u64> = None;
        while i > 0
            invariant
                i <= n <= self.spans@.len(),
                self.valid(),
                vs == self.spans(),
                forall|a: Seq<u8>, b: Seq<u8>, d: Seq<u8>| #[trigger] self.ord.le(a, b) && #[trigger] self.ord.le(b, d) ==> self.ord.le(a, d),
                forall|j: int| n <= j < self.spans@.len() ==> !self.ord.le((#[trigger] self.spans@[j]).start@, key@),
                forall|j: int| 0 <= j < n ==> self.ord.le((#[trigger] self.spans@[j]).start@, key@),
                best is Some ==> best->0 <= read_seq && span_deletes(self.ord, vs, key@, best->0),
                forall|j: int| i <= j < vs.len() && within(self.ord, (#[trigger] vs[j]).start, vs[j].end, key@) && vs[j].seq <= read_seq ==> best is Some && vs[j].seq <= best->0,
            decreases i,
        {
            i -= 1;
            if self.ord.compare(self.prefix_max_end[i].as_slice(), key).is_le() {
                proof {
                    assert forall|j: int| 0 <= j < vs.len() && within(self.ord, (#[trigger] vs[j]).start, vs[j].end, key@) && vs[j].seq <= read_seq
                        implies best is Some && vs[j].seq <= best->0 by {
                        assert(vs[j] == self.spans@[j]@);
                        if j <= i {
                            assert(self.ord.le(self.spans@[j].end@, self.prefix_max_end@[i as int]@));
                        }
                    }
                    lemma_newest_by_index(self.ord, vs, key@, read_seq, best);
                }
                return best;
            }
            let s = self.spans[i].seq;
            assert(vs[i as int] == self.spans@[i as int]@);
            if s <= read_seq && self.ord.compare(self.spans[i].end.as_slice(), key).is_gt() {
                assert(span_deletes(self.ord, vs, key@, s));
                best = match best {
                    None => Some(s),
                    Some(b) => if b < s { Some(s) } else { Some(b) },
                };
            }
        }
        proof {
            lemma_newest_by_index(self.ord, vs, key@, read_seq, best);
        }
        best
    }

    /// The set as disjoint fragments, clipped to `[lower, upper)`.
    pub fn fragments(&self, lower: Option<&[u8]>, upper: Option<&[u8]>) -> (r: FragmentIter)
        requires
            self.valid(),
        ensures
            is_fragmentation(self.order(), self.spans(), opt_bytes(lower), opt_bytes(upper), r.remaining()),
    {
        let frags = fragment_spans(&self.ord, &self.spans, lower, upper);
        let ghost fv = fragment_views(frags@);
        let r = FragmentIter { frags, next: 0 };
        assert(r.remaining() =~= fv);
        r
    }
}

proof fn lemma_newest_by_index<C: Comparator>(c: C, vs: Seq<SpanView>, key: Seq<u8>, read_seq: u64, best: Option<u64>)
    requires
        best is Some ==> best->0 <= read_seq && span_deletes(c, vs, key, best->0),
        forall|j: int| 0 <= j < vs.len() && within(c, (#[trigger] vs[j]).start, vs[j].end, key) && vs[j].seq <= read_seq ==> best is Some && vs[j].seq <= best->0,
    ensures
        newest_span(c, vs, key, read_seq, best),
{
    assert forall|y: u64| #[trigger] span_deletes(c, vs, key, y) && y <= read_seq implies best is Some && y <= best->0 by {
        let j = choose|j: int| 0 <= j < vs.len() && (#[trigger] vs[j]).seq == y && within(c, vs[j].start, vs[j].end, key);
        assert(vs[j].seq == y);
    }
}

/// The bytes of an optional bound.
pub open spec fn opt_bytes(b: Option<&[u8]>) -> Option<Seq<u8>> {
    match b {
        None => None,
        Some(k) => Some(k@),
    }
}

/// Fragments handed out one after another.
pub struct FragmentIter {
    frags: Vec<Fragment>,
    next: usize,
}

impl FragmentIter {
    /// The fragments not yet handed out.
    pub closed spec fn remaining(self) -> Seq<FragmentView> {
        if self.next <= self.frags@.len() { fragment_views(self.frags@).skip(self.next as int) } else { Seq::empty() }
    }

    /// The next fragment.
    pub fn next(&mut self) -> (r: Option<Fragment>)
        ensures
            match r {
                Some(f) => old(self).remaining().len() > 0 && f@ == old(self).remaining()[0] && final(self).remaining() == old(
                    self,
                ).remaining().skip(1),
                None => old(self).remaining().len() == 0 && final(self).remaining().len() == 0,
            },
    {
        if self.next < self.frags.len() {
            let f = self.frags[self.next].duplicate();
            let ghost before = self.remaining();
            self.next += 1;
            assert(self.remaining() =~= before.skip(1));
            Some(f)
        } else {
            None
        }
    }

    /// How many fragments are left.
    pub fn len(&self) -> (r: usize)
        ensures
            r == self.remaining().len(),
    {
        if self.next < self.frags.len() { self.frags.len() - self.next } else { 0 }
    }

    /// All fragments that are left.
    pub fn collect(self) -> (r: Vec<Fragment>)
        ensures
            fragment_views(r@) == self.remaining(),
    {
        let mut out: Vec<Fragment> = Vec::new();
        let ghost rest = self.remaining();
        let mut i: usize = self.next;
        assert(fragment_views(out@) =~= Seq::empty());
        while i < self.frags.len()
            invariant
                self.next <= i,
                i <= self.frags@.len() || self.next > self.frags@.len(),
                self.next <= self.frags@.len() ==> fragment_views(out@) == fragment_views(self.frags@).subrange(self.next as int, i as int),
                self.next > self.frags@.len() ==> out@.len() == 0,
            decreases self.frags@.len() - i,
        {
            let ghost o0 = out@;
            out.push(self.frags[i].duplicate());
            assert(fragment_views(out@) =~= fragment_views(self.frags@).subrange(self.next as int, i + 1));
            i += 1;
        }
        assert(fragment_views(out@) =~= rest);
        out
    }
}

// ---------------------------------------------------------------------------
// Fragmentation
// ---------------------------------------------------------------------------

/// Whether `key` lies in `[lower, upper)`, either bound possibly absent.
pub open spec fn in_interval<C: Comparator>(c: C, lower: Option<Seq<u8>>, upper: Option<Seq<u8>>, key: Seq<u8>) -> bool {
    &&& lower is Some ==> c.le(lower->0, key)
    &&& upper is Some ==> !c.le(upper->0, key)
}

/// Whether `x` is an end of some span or of the interval.
pub open spec fn is_boundary(spans: Seq<SpanView>, lower: Option<Seq<u8>>, upper: Option<Seq<u8>>, x: Seq<u8>) -> bool {
    ||| lower == Some(x)
    ||| upper == Some(x)
    ||| exists|i: int| 0 <= i < spans.len() && ((#[trigger] spans[i]).start == x || spans[i].end == x)
}

/// `frags` is `spans` over `[lower, upper)`, as a disjoint ordered list that
/// deletes exactly the same keys at exactly the same sequences, and in which
/// fragments that touch have different sequences.
pub open spec fn is_fragmentation<C: Comparator>(
    c: C,
    spans: Seq<SpanView>,
    lower: Option<Seq<u8>>,
    upper: Option<Seq<u8>>,
    frags: Seq<FragmentView>,
) -> bool {
    &&& fragments_ordered(c, frags)
    &&& forall|key: Seq<u8>, seq: u64| #[trigger] fragment_deletes(c, frags, key, seq) <==> span_deletes(c, spans, key, seq) && in_interval(c, lower, upper, key)
    &&& forall|i: int, j: int| 0 <= i && j == i + 1 && j < frags.len() && c.le((#[trigger] frags[j]).start, (#[trigger] frags[i]).end) ==> frags[i].seqs != frags[j].seqs
    &&& forall|i: int| 0 <= i < frags.len() ==> is_boundary(spans, lower, upper, (#[trigger] frags[i]).start) && is_boundary(spans, lower, upper, frags[i].end)
}

/// Keys in strictly ascending order.
spec fn ascending<C: Comparator>(c: C, b: Seq<Vec<u8>>) -> bool {
    forall|i: int, j: int| 0 <= i < j < b.len() ==> !c.le((#[trigger] b[j])@, (#[trigger] b[i])@)
}

/// Whether some key of `b` compares equal to `x`.
spec fn holds<C: Comparator>(c: C, b: Seq<Vec<u8>>, x: Seq<u8>) -> bool {
    exists|i: int| 0 <= i < b.len() && c.le((#[trigger] b[i])@, x) && c.le(x, b[i]@)
}

/// Insert `k` into ascending keys unless one compares equal to it.
fn insert_bound<C: Comparator>(ord: &C, b: &mut Vec<Vec<u8>>, k: Vec<u8>)
    requires
        ascending(*ord, old(b)@),
    ensures
        ascending(*ord, final(b)@),
        holds(*ord, final(b)@, k@),
        final(b)@.len() > 0,
        forall|x: Seq<u8>| holds(*ord, old(b)@, x) ==> #[trigger] holds(*ord, final(b)@, x),
        forall|i: int| 0 <= i < final(b)@.len() ==> (#[trigger] final(b)@[i])@ == k@ || exists|j: int| 0 <= j < old(b)@.len() && (#[trigger] old(b)@[j])@ == final(b)@[i]@,
{
    let ghost b0 = b@;
    proof {
        crate::comparator::lemma_order(*ord);
    }
    let mut i: usize = 0;
    while i < b.len() && ord.compare(b[i].as_slice(), k.as_slice()).is_lt()
        invariant
            i <= b@.len(),
            b@ == b0,
            forall|j: int| 0 <= j < i ==> !ord.le(k@, (#[trigger] b@[j])@),
        decreases b@.len() - i,
    {
        i += 1;
    }
    if i < b.len() && ord.compare(b[i].as_slice(), k.as_slice()).is_eq() {
        assert(ord.le(b@[i as int]@, k@));
        assert forall|q: int| 0 <= q < b@.len() implies (#[trigger] b@[q])@ == k@ || exists|j: int| 0 <= j < b0.len() && (#[trigger] b0[j])@ == b@[q]@ by {
            assert(b0[q]@ == b@[q]@);
        }
        return;
    }
    assert(forall|j: int| 0 <= j < i ==> !ord.le(k@, (#[trigger] b0[j])@));
    assert(i < b0.len() ==> !ord.le(b0[i as int]@, k@));
    b.insert(i, k);
    proof {
        let b1 = b@;
        assert(b1 =~= b0.insert(i as int, b1[i as int]));
        assert forall|p: int, q: int| 0 <= p < q < b1.len() implies !ord.le((#[trigger] b1[q])@, (#[trigger] b1[p])@) by {
            let x = if p < i { p } else { p - 1 };
            let y = if q < i { q } else { q - 1 };
            if p != i && q != i {
                assert(b1[p] == b0[x]);
                assert(b1[q] == b0[y]);
            } else if q == i {
                assert(b1[p] == b0[p]);
            } else {
                assert(b1[q] == b0[q - 1]);
                if q - 1 > i {
                    assert(!ord.le(b0[q - 1]@, b0[i as int]@));
                    assert(ord.le(b0[i as int]@, b0[q - 1]@));
                    assert(ord.le(k@, b0[i as int]@));
                }
            }
        }
        assert(b1[i as int]@ == k@);
        assert forall|x: Seq<u8>| holds(*ord, b0, x) implies #[trigger] holds(*ord, b1, x) by {
            let j = choose|j: int| 0 <= j < b0.len() && ord.le((#[trigger] b0[j])@, x) && ord.le(x, b0[j]@);
            let jj = if j < i { j } else { j + 1 };
            assert(b1[jj] == b0[j]);
        }
        assert forall|q: int| 0 <= q < b1.len() implies (#[trigger] b1[q])@ == k@ || exists|j: int| 0 <= j < b0.len() && (#[trigger] b0[j])@ == b1[q]@ by {
            if q < i {
                assert(b0[q]@ == b1[q]@);
            } else if q > i {
                assert(b0[q - 1]@ == b1[q]@);
            }
        }
    }
}

/// Insert `s` into descending sequences unless it is there.
fn insert_desc(v: &mut Vec<u64>, s: u64)
    requires
        descending(old(v)@),
    ensures
        descending(final(v)@),
        forall|y: u64| #[trigger] final(v)@.contains(y) <==> old(v)@.contains(y) || y == s,
{
    let ghost v0 = v@;
    let mut i: usize = 0;
    while i < v.len() && v[i] > s
        invariant
            i <= v@.len(),
            v@ == v0,
            forall|j: int| 0 <= j < i ==> #[trigger] v@[j] > s,
        decreases v@.len() - i,
    {
        i += 1;
    }
    if i < v.len() && v[i] == s {
        assert(v0.contains(s));
        return;
    }
    assert(forall|j: int| 0 <= j < i ==> #[trigger] v0[j] > s);
    assert(i < v0.len() ==> v0[i as int] < s);
    v.insert(i, s);
    proof {
        let v1 = v@;
        assert forall|p: int, q: int| 0 <= p < q < v1.len() implies #[trigger] v1[p] > #[trigger] v1[q] by {
            if q > i && q - 1 > i {
                assert(v0[i as int] > v0[q - 1]);
            }
        }
        assert forall|y: u64| #[trigger] v1.contains(y) <==> v0.contains(y) || y == s by {
            if v0.contains(y) {
                let j = choose|j: int| 0 <= j < v0.len() && v0[j] == y;
                let jj = if j < i { j } else { j + 1 };
                assert(v1[jj] == y);
            }
            if y == s {
                assert(v1[i as int] == y);
            }
            if v1.contains(y) && y != s {
                let j = choose|j: int| 0 <= j < v1.len() && v1[j] == y;
                let jj = if j < i { j } else { j - 1 };
                assert(v0[jj] == y);
            }
        }
    }
}

/// Whether a span at `seq` spans all of `[a, b)`.
spec fn stack_has<C: Comparator>(c: C, spans: Seq<SpanView>, a: Seq<u8>, b: Seq<u8>, seq: u64) -> bool {
    exists|i: int| 0 <= i < spans.len() && (#[trigger] spans[i]).seq == seq && c.le(spans[i].start, a) && c.le(b, spans[i].end)
}

/// The sequences of the spans that span all of `[a, b)`, newest first.
fn stack_over<C: Comparator>(ord: &C, spans: &Vec<Span>, a: &Vec<u8>, b: &Vec<u8>) -> (r: Vec<u64>)
    ensures
        descending(r@),
        forall|s: u64| #[trigger] r@.contains(s) <==> stack_has(*ord, span_views(spans@), a@, b@, s),
{
    let ghost vs = span_views(spans@);
    let mut r: Vec<u64> = Vec::new();
    let mut i: usize = 0;
    while i < spans.len()
        invariant
            i <= spans@.len(),
            vs == span_views(spans@),
            descending(r@),
            forall|s: u64| #[trigger] r@.contains(s) <==> exists|j: int| 0 <= j < i && (#[trigger] vs[j]).seq == s && ord.le(vs[j].start, a@) && ord.le(b@, vs[j].end),
        decreases spans@.len() - i,
    {
        assert(vs[i as int] == spans@[i as int]@);
        let ghost r0 = r@;
        if ord.compare(spans[i].start.as_slice(), a.as_slice()).is_le() && ord.compare(
            spans[i].end.as_slice(),
            b.as_slice(),
        ).is_ge() {
            proof {
                ord.lemma_total(spans@[i as int].start@, a@);
                ord.lemma_total(spans@[i as int].end@, b@);
            }
            insert_desc(&mut r, spans[i].seq);
        }
        i += 1;
        assert forall|s: u64| #[trigger] r@.contains(s) <==> exists|j: int| 0 <= j < i && (#[trigger] vs[j]).seq == s && ord.le(vs[j].start, a@) && ord.le(b@, vs[j].end) by {
            ord.lemma_total(vs[i - 1].start, a@);
            ord.lemma_total(vs[i - 1].end, b@);
            assert(r0.contains(s) <==> exists|j: int| 0 <= j < i - 1 && (#[trigger] vs[j]).seq == s && ord.le(vs[j].start, a@) && ord.le(b@, vs[j].end));
        }
    }
    r
}

/// The start of `[start, end)` clipped to the interval.
spec fn clipped_start<C: Comparator>(c: C, lower: Option<Seq<u8>>, k: Seq<u8>) -> Seq<u8> {
    if lower is Some && !c.le(lower->0, k) { lower->0 } else { k }
}

/// The end of `[start, end)` clipped to the interval.
spec fn clipped_end<C: Comparator>(c: C, upper: Option<Seq<u8>>, k: Seq<u8>) -> Seq<u8> {
    if upper is Some && !c.le(k, upper->0) { upper->0 } else { k }
}

/// The keys at which coverage can change: both ends of every span that
/// reaches into the interval, clipped to it.
spec fn bounds_of<C: Comparator>(
    c: C,
    spans: Seq<SpanView>,
    lower: Option<Seq<u8>>,
    upper: Option<Seq<u8>>,
    b: Seq<Vec<u8>>,
    n: int,
) -> bool {
    &&& ascending(c, b)
    &&& forall|i: int| 0 <= i < b.len() ==> is_boundary(spans, lower, upper, (#[trigger] b[i])@)
    &&& forall|i: int| 0 <= i < b.len() ==> (lower is Some ==> c.le(lower->0, (#[trigger] b[i])@)) && (upper is Some ==> c.le(b[i]@, upper->0))
    &&& forall|k: int| 0 <= k < n && !c.le(clipped_end(c, upper, spans[k].end), clipped_start(c, lower, spans[k].start)) ==> holds(c, b, clipped_start(c, lower, (#[trigger] spans[k]).start)) && holds(c, b, clipped_end(c, upper, spans[k].end))
}

/// Between two neighbouring bounds coverage does not change: a span deletes a
/// key there exactly if it spans the whole gap.
proof fn lemma_gap<C: Comparator>(
    c: C,
    spans: Seq<SpanView>,
    lower: Option<Seq<u8>>,
    upper: Option<Seq<u8>>,
    b: Seq<Vec<u8>>,
    k: int,
    key: Seq<u8>,
    seq: u64,
)
    requires
        bounds_of(c, spans, lower, upper, b, spans.len() as int),
        0 <= k < b.len() - 1,
        within(c, b[k]@, b[k + 1]@, key),
    ensures
        stack_has(c, spans, b[k]@, b[k + 1]@, seq) <==> span_deletes(c, spans, key, seq) && in_interval(c, lower, upper, key),
{
    crate::comparator::lemma_order(c);
    let x = b[k]@;
    let y = b[k + 1]@;
    assert(lower is Some ==> c.le(lower->0, b[k]@));
    assert(upper is Some ==> c.le(b[k + 1]@, upper->0));
    assert(in_interval(c, lower, upper, key));
    if stack_has(c, spans, x, y, seq) {
        let i = choose|i: int| 0 <= i < spans.len() && (#[trigger] spans[i]).seq == seq && c.le(spans[i].start, x) && c.le(y, spans[i].end);
        assert(within(c, spans[i].start, spans[i].end, key));
    }
    if span_deletes(c, spans, key, seq) {
        let i = choose|i: int| 0 <= i < spans.len() && (#[trigger] spans[i]).seq == seq && within(c, spans[i].start, spans[i].end, key);
        let a = clipped_start(c, lower, spans[i].start);
        let e = clipped_end(c, upper, spans[i].end);
        assert(c.le(a, key));
        assert(!c.le(e, key));
        assert(!c.le(e, a));
        assert(holds(c, b, a) && holds(c, b, e));
        let p = choose|p: int| 0 <= p < b.len() && c.le((#[trigger] b[p])@, a) && c.le(a, b[p]@);
        let q = choose|q: int| 0 <= q < b.len() && c.le((#[trigger] b[q])@, e) && c.le(e, b[q]@);
        if p > k {
            if p > k + 1 {
                assert(!c.le(b[p]@, b[k + 1]@));
            }
            assert(c.le(y, b[p]@));
            assert(c.le(y, key));
        }
        if p < k {
            assert(!c.le(b[k]@, b[p]@));
        }
        assert(c.le(b[p]@, x));
        assert(c.le(a, x));
        assert(c.le(spans[i].start, a));
        if q <= k {
            if q < k {
                assert(!c.le(b[k]@, b[q]@));
            }
            assert(c.le(b[q]@, x));
            assert(c.le(e, key));
        }
        if q > k + 1 {
            assert(!c.le(b[q]@, b[k + 1]@));
        }
        assert(c.le(y, b[q]@));
        assert(c.le(y, e));
        assert(c.le(e, spans[i].end));
    }
}

/// No span deletes a key of the interval that is not between the outermost
/// bounds.
proof fn lemma_outside<C: Comparator>(
    c: C,
    spans: Seq<SpanView>,
    lower: Option<Seq<u8>>,
    upper: Option<Seq<u8>>,
    b: Seq<Vec<u8>>,
    key: Seq<u8>,
    seq: u64,
)
    requires
        bounds_of(c, spans, lower, upper, b, spans.len() as int),
        span_deletes(c, spans, key, seq),
        in_interval(c, lower, upper, key),
    ensures
        b.len() >= 2,
        within(c, b[0]@, b[b.len() - 1]@, key),
{
    crate::comparator::lemma_order(c);
    let i = choose|i: int| 0 <= i < spans.len() && (#[trigger] spans[i]).seq == seq && within(c, spans[i].start, spans[i].end, key);
    let a = clipped_start(c, lower, spans[i].start);
    let e = clipped_end(c, upper, spans[i].end);
    assert(c.le(a, key));
    assert(!c.le(e, key));
    assert(!c.le(e, a));
    assert(holds(c, b, a) && holds(c, b, e));
    let p = choose|p: int| 0 <= p < b.len() && c.le((#[trigger] b[p])@, a) && c.le(a, b[p]@);
    let q = choose|q: int| 0 <= q < b.len() && c.le((#[trigger] b[q])@, e) && c.le(e, b[q]@);
    if p > 0 {
        assert(!c.le(b[p]@, b[0]@));
    }
    assert(c.le(b[0]@, b[p]@));
    if q < b.len() - 1 {
        assert(!c.le(b[b.len() - 1]@, b[q]@));
    }
    assert(c.le(b[q]@, b[b.len() - 1]@));
    if p == q {
        assert(c.le(e, a));
    }
}

/// What appending or extending a fragment does to what the fragments delete.
proof fn lemma_grown<C: Comparator>(c: C, f0: Seq<FragmentView>, f1: Seq<FragmentView>, a: Seq<u8>, b: Seq<u8>, seqs: Seq<u64>)
    requires
        !c.le(b, a),
        fragments_ordered(c, f0),
        ({
            ||| f1 == f0.push(FragmentView { start: a, end: b, seqs })
            ||| {
                &&& f0.len() > 0
                &&& f0.last().seqs == seqs
                &&& c.le(f0.last().end, a)
                &&& c.le(a, f0.last().end)
                &&& f1 == f0.update(f0.len() - 1, FragmentView { end: b, ..f0.last() })
            }
        }),
    ensures
        forall|key: Seq<u8>, seq: u64| #[trigger] fragment_deletes(c, f1, key, seq) <==> fragment_deletes(c, f0, key, seq) || (within(c, a, b, key) && seqs.contains(seq)),
{
    crate::comparator::lemma_order(c);
    let n = f0.len() as int;
    assert forall|key: Seq<u8>, seq: u64| #[trigger] fragment_deletes(c, f1, key, seq) <==> fragment_deletes(c, f0, key, seq) || (within(c, a, b, key) && seqs.contains(seq)) by {
        if f1 == f0.push(FragmentView { start: a, end: b, seqs }) {
            if fragment_deletes(c, f0, key, seq) {
                let i = choose|i: int| 0 <= i < f0.len() && (#[trigger] f0[i]).seqs.contains(seq) && within(c, f0[i].start, f0[i].end, key);
                assert(f1[i] == f0[i]);
            }
            if within(c, a, b, key) && seqs.contains(seq) {
                assert(f1[n].seqs.contains(seq));
            }
            if fragment_deletes(c, f1, key, seq) {
                let i = choose|i: int| 0 <= i < f1.len() && (#[trigger] f1[i]).seqs.contains(seq) && within(c, f1[i].start, f1[i].end, key);
                if i < n {
                    assert(f0[i] == f1[i]);
                }
            }
        } else {
            let last = f0[n - 1];
            assert(crate::comparator::key_lt(c, last.start, last.end));
            if fragment_deletes(c, f0, key, seq) {
                let i = choose|i: int| 0 <= i < f0.len() && (#[trigger] f0[i]).seqs.contains(seq) && within(c, f0[i].start, f0[i].end, key);
                if i < n - 1 {
                    assert(f1[i] == f0[i]);
                } else {
                    assert(f1[n - 1].seqs.contains(seq));
                    if c.le(b, key) {
                        assert(c.le(a, b));
                        assert(c.le(last.end, key));
                    }
                }
            }
            if within(c, a, b, key) && seqs.contains(seq) {
                assert(f1[n - 1].seqs.contains(seq));
                assert(c.le(last.start, last.end));
                assert(c.le(last.start, a));
            }
            if fragment_deletes(c, f1, key, seq) {
                let i = choose|i: int| 0 <= i < f1.len() && (#[trigger] f1[i]).seqs.contains(seq) && within(c, f1[i].start, f1[i].end, key);
                if i < n - 1 {
                    assert(f0[i] == f1[i]);
                } else {
                    assert(f0[n - 1].seqs.contains(seq));
                    if c.le(last.end, key) {
                        assert(c.le(a, key));
                    }
                }
            }
        }
    }
}

fn clip_low<C: Comparator>(ord: &C, lower: Option<&[u8]>, k: &Vec<u8>) -> (r: Vec<u8>)
    ensures
        r@ == clipped_start(*ord, opt_bytes(lower), k@),
{
    if let Some(l) = lower {
        proof {
            ord.lemma_total(k@, l@);
        }
        if ord.compare(k.as_slice(), l).is_lt() {
            return copy_bytes(l);
        }
    }
    k.clone()
}

fn clip_high<C: Comparator>(ord: &C, upper: Option<&[u8]>, k: &Vec<u8>) -> (r: Vec<u8>)
    ensures
        r@ == clipped_end(*ord, opt_bytes(upper), k@),
{
    if let Some(u) = upper {
        proof {
            ord.lemma_total(k@, u@);
        }
        if ord.compare(k.as_slice(), u).is_gt() {
            return copy_bytes(u);
        }
    }
    k.clone()
}

/// The bounds of some spans over an interval.
fn collect_bounds<C: Comparator>(ord: &C, spans: &Vec<Span>, lower: Option<&[u8]>, upper: Option<&[u8]>) -> (b: Vec<Vec<u8>>)
    ensures
        bounds_of(*ord, span_views(spans@), opt_bytes(lower), opt_bytes(upper), b@, spans@.len() as int),
{
    let ghost vs = span_views(spans@);
    let ghost lo = opt_bytes(lower);
    let ghost up = opt_bytes(upper);
    let mut b: Vec<Vec<u8>> = Vec::new();
    let mut i: usize = 0;
    while i < spans.len()
        invariant
            i <= spans@.len(),
            vs == span_views(spans@),
            lo == opt_bytes(lower),
            up == opt_bytes(upper),
            bounds_of(*ord, vs, lo, up, b@, i as int),
        decreases spans@.len() - i,
    {
        let ghost b0 = b@;
        proof {
            crate::comparator::lemma_order(*ord);
            assert(vs[i as int] == spans@[i as int]@);
        }
        let a = clip_low(ord, lower, &spans[i].start);
        let e = clip_high(ord, upper, &spans[i].end);
        let ghost av = a@;
        let ghost ev = e@;
        if ord.compare(a.as_slice(), e.as_slice()).is_lt() {
            assert(is_boundary(vs, lo, up, av)) by {
                if av != vs[i as int].start {
                    assert(lo == Some(av));
                }
            }
            assert(is_boundary(vs, lo, up, ev)) by {
                if ev != vs[i as int].end {
                    assert(up == Some(ev));
                }
            }
            assert(lo is Some ==> ord.le(lo->0, av));
            assert(up is Some ==> ord.le(ev, up->0));
            assert(lo is Some ==> ord.le(lo->0, ev));
            assert(up is Some ==> ord.le(av, up->0));
            insert_bound(ord, &mut b, a);
            let ghost b1 = b@;
            insert_bound(ord, &mut b, e);
            proof {
                assert forall|q: int| 0 <= q < b@.len() implies (#[trigger] b@[q])@ == av || b@[q]@ == ev || exists|j: int| 0 <= j < b0.len() && (#[trigger] b0[j])@ == b@[q]@ by {
                    if b@[q]@ != ev {
                        let j = choose|j: int| 0 <= j < b1.len() && (#[trigger] b1[j])@ == b@[q]@;
                        assert(b1[j]@ == av || exists|m: int| 0 <= m < b0.len() && (#[trigger] b0[m])@ == b1[j]@);
                    }
                }
                assert forall|k: int| 0 <= k < i + 1 && !ord.le(clipped_end(*ord, up, vs[k].end), clipped_start(*ord, lo, vs[k].start)) implies holds(
                    *ord,
                    b@,
                    clipped_start(*ord, lo, (#[trigger] vs[k]).start),
                ) && holds(*ord, b@, clipped_end(*ord, up, vs[k].end)) by {
                    if k < i {
                        assert(holds(*ord, b0, clipped_start(*ord, lo, vs[k].start)));
                        assert(holds(*ord, b1, clipped_start(*ord, lo, vs[k].start)));
                        assert(holds(*ord, b0, clipped_end(*ord, up, vs[k].end)));
                        assert(holds(*ord, b1, clipped_end(*ord, up, vs[k].end)));
                    } else {
                        assert(holds(*ord, b1, av));
                    }
                }
            }
        }
        i += 1;
    }
    b
}

/// Spans as disjoint fragments over `[lower, upper)`, an absent bound meaning
/// none. The spans may overlap and stand in any order.
pub fn fragment_spans<C: Comparator>(ord: &C, spans: &Vec<Span>, lower: Option<&[u8]>, upper: Option<&[u8]>) -> (out: Vec<Fragment>)
    ensures
        is_fragmentation(*ord, span_views(spans@), opt_bytes(lower), opt_bytes(upper), fragment_views(out@)),
{
    let ghost vs = span_views(spans@);
    let ghost lo = opt_bytes(lower);
    let ghost up = opt_bytes(upper);
    let bounds = collect_bounds(ord, spans, lower, upper);
    let mut out: Vec<Fragment> = Vec::new();
    assert(fragment_views(out@) =~= Seq::empty());
    if bounds.len() < 2 {
        proof {
            assert forall|key: Seq<u8>, seq: u64| #[trigger] fragment_deletes(*ord, fragment_views(out@), key, seq) <==> span_deletes(*ord, vs, key, seq) && in_interval(*ord, lo, up, key) by {
                if span_deletes(*ord, vs, key, seq) && in_interval(*ord, lo, up, key) {
                    lemma_outside(*ord, vs, lo, up, bounds@, key, seq);
                }
            }
        }
        return out;
    }
    proof {
        crate::comparator::lemma_order(*ord);
    }
    let mut i: usize = 0;
    while i < bounds.len() - 1
        invariant
            2 <= bounds@.len(),
            i <= bounds@.len() - 1,
            vs == span_views(spans@),
            lo == opt_bytes(lower),
            up == opt_bytes(upper),
            bounds_of(*ord, vs, lo, up, bounds@, vs.len() as int),
            forall|a: Seq<u8>| #[trigger] ord.le(a, a),
            forall|a: Seq<u8>, x: Seq<u8>| #[trigger] ord.le(a, x) || ord.le(x, a),
            forall|a: Seq<u8>, x: Seq<u8>, d: Seq<u8>| #[trigger] ord.le(a, x) && #[trigger] ord.le(x, d) ==> ord.le(a, d),
            fragments_ordered(*ord, fragment_views(out@)),
            out@.len() > 0 ==> ord.le(fragment_views(out@).last().end, bounds@[i as int]@),
            forall|p: int, q: int| 0 <= p && q == p + 1 && q < out@.len() && ord.le((#[trigger] fragment_views(out@)[q]).start, (#[trigger] fragment_views(out@)[p]).end) ==> fragment_views(out@)[p].seqs != fragment_views(out@)[q].seqs,
            forall|p: int| 0 <= p < out@.len() ==> is_boundary(vs, lo, up, (#[trigger] fragment_views(out@)[p]).start) && is_boundary(vs, lo, up, fragment_views(out@)[p].end),
            forall|key: Seq<u8>, seq: u64| #[trigger] fragment_deletes(*ord, fragment_views(out@), key, seq) <==> within(*ord, bounds@[0]@, bounds@[i as int]@, key) && span_deletes(*ord, vs, key, seq) && in_interval(*ord, lo, up, key),
        decreases bounds@.len() - i,
    {
        let ghost f0 = fragment_views(out@);
        let ghost a = bounds@[i as int]@;
        let ghost b = bounds@[i + 1]@;
        let seqs = stack_over(ord, spans, &bounds[i], &bounds[i + 1]);
        let ghost sv = seqs@;
        assert(!ord.le(b, a));
        proof {
            assert forall|key: Seq<u8>, seq: u64| #[trigger] span_deletes(*ord, vs, key, seq) && in_interval(*ord, lo, up, key) && within(*ord, a, b, key) implies sv.contains(seq) by {
                lemma_gap(*ord, vs, lo, up, bounds@, i as int, key, seq);
            }
            assert forall|key: Seq<u8>, seq: u64| within(*ord, a, b, key) && sv.contains(seq) implies #[trigger] span_deletes(*ord, vs, key, seq) && in_interval(*ord, lo, up, key) by {
                lemma_gap(*ord, vs, lo, up, bounds@, i as int, key, seq);
            }
            if i > 0 {
                assert(!ord.le(bounds@[i as int]@, bounds@[0]@));
            }
            assert(!ord.le(b, bounds@[0]@));
            assert(ord.le(bounds@[0]@, a));
        }
        if seqs.len() > 0 {
            let n = out.len();
            let mut merge: bool = false;
            if n > 0 {
                merge = same_seqs(&out[n - 1].seqs, &seqs) && ord.compare(out[n - 1].end.as_slice(), bounds[i].as_slice()).is_eq();
            }
            if merge {
                out[n - 1].end = bounds[i + 1].clone();
                assert(fragment_views(out@) =~= f0.update(n - 1, FragmentView { end: b, ..f0.last() }));
            } else {
                out.push(Fragment { start: bounds[i].clone(), end: bounds[i + 1].clone(), seqs });
                assert(fragment_views(out@) =~= f0.push(FragmentView { start: a, end: b, seqs: sv }));
            }
            proof {
                let f1 = fragment_views(out@);
                lemma_grown(*ord, f0, f1, a, b, sv);
                let m = f1.len() - 1;
                assert forall|p: int, q: int| 0 <= p < q < f1.len() implies ord.le((#[trigger] f1[p]).end, (#[trigger] f1[q]).start) by {
                    assert(f1[p] == f0[p]);
                    if merge {
                        assert(ord.le(f0[p].end, f0[q].start));
                    } else if q == m {
                        if p < n - 1 {
                            assert(ord.le(f0[p].end, f0[n - 1].start));
                            assert(crate::comparator::key_lt(*ord, f0[n - 1].start, f0[n - 1].end));
                            assert(ord.le(f0[n - 1].start, f0[n - 1].end));
                        }
                        assert(ord.le(f0[p].end, f0[n - 1].end));
                    } else {
                        assert(f1[q] == f0[q]);
                    }
                }
                assert forall|p: int| 0 <= p < f1.len() implies crate::comparator::key_lt(*ord, (#[trigger] f1[p]).start, f1[p].end) by {
                    if p < n - 1 || (p == n - 1 && !merge) {
                        assert(f1[p] == f0[p]);
                    } else if merge {
                        let last = f0[n - 1];
                        assert(crate::comparator::key_lt(*ord, last.start, last.end));
                        if ord.le(b, last.start) {
                            assert(ord.le(last.start, last.end));
                            assert(ord.le(b, a));
                        }
                    }
                }
                assert forall|p: int| 0 <= p < f1.len() implies (#[trigger] f1[p]).seqs.len() > 0 && descending(f1[p].seqs) by {
                    if p < n {
                        assert(f0[p].seqs.len() > 0);
                    }
                }
                assert forall|p: int, q: int| 0 <= p && q == p + 1 && q < f1.len() && ord.le((#[trigger] f1[q]).start, (#[trigger] f1[p]).end) implies f1[p].seqs != f1[q].seqs by {
                    assert(f1[p] == f0[p]);
                    if q < n {
                        assert(f0[q].start == f1[q].start);
                    } else {
                        assert(ord.le(f0[n - 1].end, a));
                    }
                }
                assert forall|p: int| 0 <= p < f1.len() implies is_boundary(vs, lo, up, (#[trigger] f1[p]).start) && is_boundary(vs, lo, up, f1[p].end) by {
                    assert(is_boundary(vs, lo, up, bounds@[i as int]@));
                    assert(is_boundary(vs, lo, up, bounds@[i + 1]@));
                    if p < n {
                        assert(is_boundary(vs, lo, up, f0[p].start));
                    }
                }
            }
        }
        proof {
            let f1 = fragment_views(out@);
            assert forall|key: Seq<u8>, seq: u64| #[trigger] fragment_deletes(*ord, f1, key, seq) <==> within(*ord, bounds@[0]@, bounds@[i + 1]@, key) && span_deletes(*ord, vs, key, seq) && in_interval(*ord, lo, up, key) by {
                assert(fragment_deletes(*ord, f0, key, seq) <==> within(*ord, bounds@[0]@, a, key) && span_deletes(*ord, vs, key, seq) && in_interval(*ord, lo, up, key));
                assert(within(*ord, bounds@[0]@, b, key) <==> within(*ord, bounds@[0]@, a, key) || within(*ord, a, b, key));
                if sv.len() == 0 {
                    assert(!sv.contains(seq));
                }
            }
            assert(ord.le(a, b));
        }
        i += 1;
    }
    proof {
        assert forall|key: Seq<u8>, seq: u64| #[trigger] fragment_deletes(*ord, fragment_views(out@), key, seq) <==> span_deletes(*ord, vs, key, seq) && in_interval(*ord, lo, up, key) by {
            if span_deletes(*ord, vs, key, seq) && in_interval(*ord, lo, up, key) {
                lemma_outside(*ord, vs, lo, up, bounds@, key, seq);
            }
        }
    }
    out
}

fn same_seqs(a: &Vec<u64>, b: &Vec<u64>) -> (r: bool)
    ensures
        r == (a@ == b@),
{
    if a.len() != b.len() {
        return false;
    }
    let mut i: usize = 0;
    while i < a.len()
        invariant
            i <= a@.len(),
            a@.len() == b@.len(),
            forall|j: int| 0 <= j < i ==> a@[j] == b@[j],
        decreases a@.len() - i,
    {
        if a[i] != b[i] {
            return false;
        }
        i += 1;
    }
    assert(a@ =~= b@);
    true
}

/// Fragmentation changes how range deletes are written down, not what they
/// delete: a read finds the same newest sequence in the fragments as in the
/// spans.
pub proof fn lemma_fragments_read_as_spans<C: Comparator>(c: C, spans: Seq<SpanView>, frags: Seq<FragmentView>, key: Seq<u8>, read_seq: u64, r: Option<u64>)
    requires
        is_fragmentation(c, spans, None, None, frags),
    ensures
        newest_fragment(c, frags, key, read_seq, r) <==> newest_span(c, spans, key, read_seq, r),
{
    assert(forall|y: u64| fragment_deletes(c, frags, key, y) <==> #[trigger] span_deletes(c, spans, key, y));
}

/// One span for each sequence of a fragment.
pub open spec fn exploded(f: FragmentView) -> Seq<SpanView> {
    f.seqs.map_values(|s: u64| SpanView { start: f.start, end: f.end, seq: s })
}

/// One span for each sequence of each fragment.
pub open spec fn exploded_all(frags: Seq<FragmentView>) -> Seq<SpanView>
    decreases frags.len(),
{
    if frags.len() == 0 { Seq::empty() } else { exploded_all(frags.drop_last()) + exploded(frags.last()) }
}

/// One span for each sequence of each fragment, in order.
pub fn spans_of_fragments(frags: &Vec<Fragment>) -> (r: Vec<Span>)
    ensures
        span_views(r@) == exploded_all(fragment_views(frags@)),
{
    let ghost fv = fragment_views(frags@);
    let mut out: Vec<Span> = Vec::new();
    let mut i: usize = 0;
    assert(fv.take(0) =~= Seq::empty());
    assert(span_views(out@) =~= Seq::empty());
    while i < frags.len()
        invariant
            i <= frags@.len(),
            fv == fragment_views(frags@),
            span_views(out@) == exploded_all(fv.take(i as int)),
        decreases frags@.len() - i,
    {
        let ghost before = span_views(out@);
        let ghost f = fv[i as int];
        let mut k: usize = 0;
        assert(before + exploded(f).take(0) =~= before);
        while k < frags[i].seqs.len()
            invariant
                i < frags@.len(),
                fv == fragment_views(frags@),
                f == fv[i as int],
                f == frags@[i as int]@,
                k <= frags@[i as int].seqs@.len(),
                span_views(out@) == before + exploded(f).take(k as int),
            decreases frags@[i as int].seqs@.len() - k,
        {
            let ghost o0 = out@;
            out.push(Span { start: frags[i].start.clone(), end: frags[i].end.clone(), seq: frags[i].seqs[k] });
            assert(span_views(out@) =~= before + exploded(f).take(k + 1)) by {
                assert(span_views(out@) =~= span_views(o0).push(exploded(f)[k as int]));
            }
            k += 1;
        }
        assert(exploded(f).take(exploded(f).len() as int) =~= exploded(f));
        assert(fv.take(i + 1).drop_last() =~= fv.take(i as int));
        i += 1;
    }
    assert(fv.take(fv.len() as int) =~= fv);
    out
}

proof fn lemma_joined_spans<C: Comparator>(c: C, s0: Seq<SpanView>, s1: Seq<SpanView>, key: Seq<u8>, seq: u64)
    ensures
        span_deletes(c, s0 + s1, key, seq) <==> span_deletes(c, s0, key, seq) || span_deletes(c, s1, key, seq),
{
    let all = s0 + s1;
    if span_deletes(c, all, key, seq) {
        let i = choose|i: int| 0 <= i < all.len() && (#[trigger] all[i]).seq == seq && within(c, all[i].start, all[i].end, key);
        if i < s0.len() {
            assert(s0[i] == all[i]);
        } else {
            assert(s1[i - s0.len()] == all[i]);
        }
    }
    if span_deletes(c, s0, key, seq) {
        let i = choose|i: int| 0 <= i < s0.len() && (#[trigger] s0[i]).seq == seq && within(c, s0[i].start, s0[i].end, key);
        assert(all[i] == s0[i]);
    }
    if span_deletes(c, s1, key, seq) {
        let i = choose|i: int| 0 <= i < s1.len() && (#[trigger] s1[i]).seq == seq && within(c, s1[i].start, s1[i].end, key);
        assert(all[s0.len() + i] == s1[i]);
    }
}

proof fn lemma_exploded_one<C: Comparator>(c: C, f: FragmentView, key: Seq<u8>, seq: u64)
    ensures
        span_deletes(c, exploded(f), key, seq) <==> f.seqs.contains(seq) && within(c, f.start, f.end, key),
{
    let s = exploded(f);
    if span_deletes(c, s, key, seq) {
        let i = choose|i: int| 0 <= i < s.len() && (#[trigger] s[i]).seq == seq && within(c, s[i].start, s[i].end, key);
        assert(f.seqs[i] == seq);
    }
    if f.seqs.contains(seq) && within(c, f.start, f.end, key) {
        let i = choose|i: int| 0 <= i < f.seqs.len() && f.seqs[i] == seq;
        assert(s[i].seq == seq);
    }
}

proof fn lemma_last_fragment<C: Comparator>(c: C, frags: Seq<FragmentView>, key: Seq<u8>, seq: u64)
    requires
        frags.len() > 0,
    ensures
        fragment_deletes(c, frags, key, seq) <==> fragment_deletes(c, frags.drop_last(), key, seq) || (frags.last().seqs.contains(
            seq,
        ) && within(c, frags.last().start, frags.last().end, key)),
{
    let d = frags.drop_last();
    if fragment_deletes(c, frags, key, seq) {
        let j = choose|j: int| 0 <= j < frags.len() && (#[trigger] frags[j]).seqs.contains(seq) && within(c, frags[j].start, frags[j].end, key);
        if j < d.len() {
            assert(d[j] == frags[j]);
        }
    }
    if fragment_deletes(c, d, key, seq) {
        let j = choose|j: int| 0 <= j < d.len() && (#[trigger] d[j]).seqs.contains(seq) && within(c, d[j].start, d[j].end, key);
        assert(frags[j] == d[j]);
    }
    if frags.last().seqs.contains(seq) && within(c, frags.last().start, frags.last().end, key) {
        assert(frags[frags.len() - 1].seqs.contains(seq));
    }
}

/// Exploding fragments into spans keeps what they delete.
pub proof fn lemma_exploding_keeps_coverage<C: Comparator>(c: C, frags: Seq<FragmentView>, key: Seq<u8>, seq: u64)
    ensures
        span_deletes(c, exploded_all(frags), key, seq) <==> fragment_deletes(c, frags, key, seq),
    decreases frags.len(),
{
    if frags.len() > 0 {
        lemma_exploding_keeps_coverage(c, frags.drop_last(), key, seq);
        lemma_joined_spans(c, exploded_all(frags.drop_last()), exploded(frags.last()), key, seq);
        lemma_exploded_one(c, frags.last(), key, seq);
        lemma_last_fragment(c, frags, key, seq);
    }
}

/// Compaction explodes fragments and fragments the spans again: what they
/// delete inside the interval stays the same.
pub proof fn lemma_refragmenting_keeps_coverage<C: Comparator>(
    c: C,
    frags: Seq<FragmentView>,
    lower: Option<Seq<u8>>,
    upper: Option<Seq<u8>>,
    again: Seq<FragmentView>,
    key: Seq<u8>,
    seq: u64,
)
    requires
        is_fragmentation(c, exploded_all(frags), lower, upper, again),
    ensures
        fragment_deletes(c, again, key, seq) <==> fragment_deletes(c, frags, key, seq) && in_interval(c, lower, upper, key),
{
    lemma_exploding_keeps_coverage(c, frags, key, seq);
}

// ---------------------------------------------------------------------------
// Reading
// ---------------------------------------------------------------------------

/// Of ordered fragments only the first that ends past `key` can hold it.
proof fn lemma_only_candidate<C: Comparator>(c: C, frags: Seq<FragmentView>, i: int, key: Seq<u8>, read_seq: u64, r: Option<u64>)
    requires
        fragments_apart(c, frags),
        0 <= i <= frags.len(),
        forall|j: int| 0 <= j < i ==> c.le((#[trigger] frags[j]).end, key),
        i < frags.len() ==> !c.le(frags[i].end, key),
        i == frags.len() || !c.le(frags[i].start, key) ==> r is None,
        i < frags.len() && c.le(frags[i].start, key) ==> (match r {
            Some(x) => frags[i].seqs.contains(x) && x <= read_seq && forall|y: u64|
                #[trigger] frags[i].seqs.contains(y) && y <= read_seq ==> y <= x,
            None => forall|y: u64| #[trigger] frags[i].seqs.contains(y) ==> y > read_seq,
        }),
    ensures
        newest_fragment(c, frags, key, read_seq, r),
{
    crate::comparator::lemma_order(c);
    assert forall|y: u64| #[trigger] fragment_deletes(c, frags, key, y) implies i < frags.len() && c.le(frags[i].start, key) && frags[i].seqs.contains(y) by {
        let j = choose|j: int| 0 <= j < frags.len() && (#[trigger] frags[j]).seqs.contains(y) && within(c, frags[j].start, frags[j].end, key);
        if j > i {
            assert(c.le(frags[i].end, frags[j].start));
        }
    }
    if let Some(x) = r {
        assert(within(c, frags[i].start, frags[i].end, key));
        assert(fragment_deletes(c, frags, key, x));
    }
}

/// The newest sequence, at or below `read_seq`, of a fragment that deletes
/// `key`, in fragments that stand one behind the other.
pub fn covering_seq_in<C: Comparator>(ord: &C, frags: &Vec<Fragment>, key: &[u8], read_seq: u64) -> (r: Option<u64>)
    requires
        fragments_apart(*ord, fragment_views(frags@)),
    ensures
        newest_fragment(*ord, fragment_views(frags@), key@, read_seq, r),
{
    let ghost fv = fragment_views(frags@);
    proof {
        crate::comparator::lemma_order(*ord);
        assert forall|i: int, j: int| 0 <= i < j < fv.len() implies ord.le((#[trigger] fv[i]).end, (#[trigger] fv[j]).end) by {
            assert(ord.le(fv[i].end, fv[j].start));
            assert(crate::comparator::key_lt(*ord, fv[j].start, fv[j].end));
            assert(ord.le(fv[j].start, fv[j].end));
        }
    }
    let mut lo: usize = 0;
    let mut hi: usize = frags.len();
    while lo < hi
        invariant
            lo <= hi <= frags@.len(),
            fv == fragment_views(frags@),
            forall|a: Seq<u8>, b: Seq<u8>, d: Seq<u8>| #[trigger] ord.le(a, b) && #[trigger] ord.le(b, d) ==> ord.le(a, d),
            forall|i: int, j: int| 0 <= i < j < fv.len() ==> ord.le((#[trigger] fv[i]).end, (#[trigger] fv[j]).end),
            forall|j: int| 0 <= j < lo ==> ord.le((#[trigger] fv[j]).end, key@),
            forall|j: int| hi <= j < fv.len() ==> !ord.le((#[trigger] fv[j]).end, key@),
        decreases hi - lo,
    {
        let mid = lo + (hi - lo) / 2;
        assert(fv[mid as int] == frags@[mid as int]@);
        if ord.compare(frags[mid].end.as_slice(), key).is_le() {
            assert forall|j: int| 0 <= j < mid + 1 implies ord.le((#[trigger] fv[j]).end, key@) by {
                if j < mid {
                    assert(ord.le(fv[j].end, fv[mid as int].end));
                }
            }
            lo = mid + 1;
        } else {
            assert forall|j: int| mid <= j < fv.len() implies !ord.le((#[trigger] fv[j]).end, key@) by {
                if j > mid {
                    assert(ord.le(fv[mid as int].end, fv[j].end));
                }
            }
            hi = mid;
        }
    }
    let r = answer_at(ord, frags, lo, key, read_seq);
    proof {
        lemma_only_candidate(*ord, fv, lo as int, key@, read_seq, r);
    }
    r
}

/// What the fragment at `i` says of `key`.
fn answer_at<C: Comparator>(ord: &C, frags: &Vec<Fragment>, i: usize, key: &[u8], read_seq: u64) -> (r: Option<u64>)
    requires
        fragments_apart(*ord, fragment_views(frags@)),
    ensures
        i >= frags@.len() || !ord.le(frags@[i as int].start@, key@) ==> r is None,
        i < frags@.len() && ord.le(frags@[i as int].start@, key@) ==> (match r {
            Some(x) => frags@[i as int].seqs@.contains(x) && x <= read_seq && forall|y: u64|
                #[trigger] frags@[i as int].seqs@.contains(y) && y <= read_seq ==> y <= x,
            None => forall|y: u64| #[trigger] frags@[i as int].seqs@.contains(y) ==> y > read_seq,
        }),
{
    if i >= frags.len() {
        return None;
    }
    if ord.compare(frags[i].start.as_slice(), key).is_gt() {
        return None;
    }
    assert(fragment_views(frags@)[i as int] == frags@[i as int]@);
    frags[i].visible_seq(read_seq)
}

/// One source's fragments and where the last key stood among them.
struct FragCursor {
    frags: Vec<Fragment>,
    idx: usize,
}

impl FragCursor {
    /// The newest sequence, at or below `read_seq`, of a fragment that deletes
    /// `key`. From wherever the cursor stands it walks to the only fragment
    /// that can hold the key.
    fn covering_seq<C: Comparator>(&mut self, ord: &C, key: &[u8], read_seq: u64) -> (r: Option<u64>)
        requires
            fragments_apart(*ord, fragment_views(old(self).frags@)),
            old(self).idx <= old(self).frags@.len(),
        ensures
            final(self).frags == old(self).frags,
            final(self).idx <= final(self).frags@.len(),
            newest_fragment(*ord, fragment_views(old(self).frags@), key@, read_seq, r),
    {
        let n = self.frags.len();
        let ghost fv = fragment_views(self.frags@);
        let ghost frags0 = self.frags;
        proof {
            crate::comparator::lemma_order(*ord);
            assert forall|i: int, j: int| 0 <= i < j < fv.len() implies ord.le((#[trigger] fv[i]).end, (#[trigger] fv[j]).end) by {
                assert(ord.le(fv[i].end, fv[j].start));
                assert(crate::comparator::key_lt(*ord, fv[j].start, fv[j].end));
                assert(ord.le(fv[j].start, fv[j].end));
            }
        }
        while self.idx < n && ord.compare(self.frags[self.idx].end.as_slice(), key).is_le()
            invariant
                self.frags == frags0,
                n == self.frags@.len(),
                self.idx <= n,
            decreases n - self.idx,
        {
            self.idx += 1;
        }
        assert(self.idx < n ==> !ord.le(frags0@[self.idx as int].end@, key@));
        while self.idx > 0 && ord.compare(self.frags[self.idx - 1].end.as_slice(), key).is_gt()
            invariant
                self.frags == frags0,
                n == self.frags@.len(),
                self.idx <= n,
                self.idx < n ==> !ord.le(frags0@[self.idx as int].end@, key@),
            decreases self.idx,
        {
            self.idx -= 1;
        }
        let r = answer_at(ord, &self.frags, self.idx, key, read_seq);
        proof {
            let i = self.idx as int;
            assert forall|j: int| 0 <= j < i implies ord.le((#[trigger] fv[j]).end, key@) by {
                assert(fv[i - 1] == frags0@[i - 1]@);
                if j < i - 1 {
                    assert(ord.le(fv[j].end, fv[i - 1].end));
                }
            }
            if i < n {
                assert(fv[i] == frags0@[i]@);
            }
            lemma_only_candidate(*ord, fv, i, key@, read_seq, r);
        }
        r
    }
}

/// Whether some source deletes `key` at `seq`.
pub open spec fn source_deletes<C: Comparator>(c: C, sources: Seq<Seq<FragmentView>>, key: Seq<u8>, seq: u64) -> bool {
    exists|i: int| 0 <= i < sources.len() && fragment_deletes(c, #[trigger] sources[i], key, seq)
}

/// Range deletes across every source of one read.
pub struct RangeMask {
    sources: Vec<FragCursor>,
}

impl RangeMask {
    /// The fragments of each source.
    pub closed spec fn sources(self) -> Seq<Seq<FragmentView>> {
        self.sources@.map_values(|s: FragCursor| fragment_views(s.frags@))
    }

    /// Every source's fragments stand one behind the other.
    pub closed spec fn valid<C: Comparator>(self, c: C) -> bool {
        forall|i: int|
            0 <= i < self.sources@.len() ==> fragments_apart(c, fragment_views((#[trigger] self.sources@[i]).frags@))
                && self.sources@[i].idx <= self.sources@[i].frags@.len()
    }

    /// A mask of no source, for keys ordered by `ord`.
    pub fn new<C: Comparator>(ord: &C) -> (r: RangeMask)
        ensures
            r.sources() == Seq::<Seq<FragmentView>>::empty(),
            r.valid(*ord),
    {
        let r = RangeMask { sources: Vec::new() };
        assert(r.sources() =~= Seq::empty());
        r
    }

    /// Add one source. One without fragments is left out.
    pub fn push<C: Comparator>(&mut self, ord: &C, frags: Vec<Fragment>)
        requires
            old(self).valid(*ord),
            fragments_apart(*ord, fragment_views(frags@)),
        ensures
            final(self).valid(*ord),
            final(self).sources() == (if frags@.len() == 0 {
                old(self).sources()
            } else {
                old(self).sources().push(fragment_views(frags@))
            }),
    {
        if frags.len() != 0 {
            let ghost before = *self;
            self.sources.push(FragCursor { frags, idx: 0 });
            assert(self.sources() =~= before.sources().push(fragment_views(frags@)));
            assert forall|i: int| 0 <= i < self.sources@.len() implies fragments_apart(
                *ord,
                fragment_views((#[trigger] self.sources@[i]).frags@),
            ) && self.sources@[i].idx <= self.sources@[i].frags@.len() by {
                if i < before.sources@.len() {
                    assert(self.sources@[i] == before.sources@[i]);
                }
            }
        }
    }

    /// Whether no source contributes.
    pub fn is_empty(&self) -> (r: bool)
        ensures
            r == (self.sources().len() == 0),
    {
        self.sources.len() == 0
    }

    /// The newest sequence, at or below `read_seq`, at which any source
    /// deletes `key`.
    pub fn covering_seq<C: Comparator>(&mut self, ord: &C, key: &[u8], read_seq: u64) -> (r: Option<u64>)
        requires
            old(self).valid(*ord),
        ensures
            final(self).valid(*ord),
            final(self).sources() == old(self).sources(),
            match r {
                Some(x) => source_deletes(*ord, old(self).sources(), key@, x) && x <= read_seq && forall|y: u64|
                    #[trigger] source_deletes(*ord, old(self).sources(), key@, y) && y <= read_seq ==> y <= x,
                None => forall|y: u64| #[trigger] source_deletes(*ord, old(self).sources(), key@, y) ==> y > read_seq,
            },
    {
        let ghost src = self.sources();
        let ghost raw = self.sources@;
        let mut best: Option<u64> = None;
        let mut i: usize = 0;
        while i < self.sources.len()
            invariant
                i <= self.sources@.len(),
                self.sources@.len() == raw.len(),
                src == raw.map_values(|s: FragCursor| fragment_views(s.frags@)),
                forall|k: int| 0 <= k < raw.len() ==> (#[trigger] self.sources@[k]).frags == raw[k].frags,
                self.valid(*ord),
                best is Some ==> best->0 <= read_seq && source_deletes(*ord, src, key@, best->0),
                forall|k: int, y: u64| 0 <= k < i && #[trigger] fragment_deletes(*ord, src[k], key@, y) && y <= read_seq ==> best is Some && y <= best->0,
            decreases self.sources@.len() - i,
        {
            let ghost best0 = best;
            let ghost before = self.sources@;
            assert(src[i as int] == fragment_views(raw[i as int].frags@));
            assert(self.sources@[i as int].frags == raw[i as int].frags);
            let found = self.sources[i].covering_seq(ord, key, read_seq);
            if let Some(s) = found {
                assert(fragment_deletes(*ord, src[i as int], key@, s));
                assert(source_deletes(*ord, src, key@, s));
                best = match best {
                    None => Some(s),
                    Some(b) => if b < s { Some(s) } else { Some(b) },
                };
            }
            assert forall|k: int, y: u64| 0 <= k < i + 1 && #[trigger] fragment_deletes(*ord, src[k], key@, y) && y <= read_seq implies best is Some && y <= best->0 by {
                if k == i {
                    assert(newest_fragment(*ord, src[i as int], key@, read_seq, found));
                }
            }
            assert forall|k: int| 0 <= k < self.sources@.len() implies fragments_apart(
                *ord,
                fragment_views((#[trigger] self.sources@[k]).frags@),
            ) && self.sources@[k].idx <= self.sources@[k].frags@.len() by {
                if k != i {
                    assert(self.sources@[k] == before[k]);
                }
            }
            i += 1;
        }
        assert(self.sources() =~= src);
        assert forall|y: u64| #[trigger] source_deletes(*ord, src, key@, y) && y <= read_seq implies best is Some && y <= best->0 by {
            let k = choose|k: int| 0 <= k < src.len() && fragment_deletes(*ord, #[trigger] src[k], key@, y);
            assert(fragment_deletes(*ord, src[k], key@, y));
        }
        best
    }
}

// ---------------------------------------------------------------------------
// The section of a table that holds fragments
// ---------------------------------------------------------------------------

/// One fragment as bytes: start, end and sequences, each behind its length.
pub open spec fn fragment_wire(f: FragmentView) -> Seq<u8> {
    crate::edit_codec::bytes_wire(f.start) + (crate::edit_codec::bytes_wire(f.end) + (crate::encoding::uvarint_bytes(f.seqs.len()) + crate::edit_codec::ids_wire(f.seqs)))
}

pub open spec fn fragments_wire(fs: Seq<FragmentView>) -> Seq<u8>
    decreases fs.len(),
{
    if fs.len() == 0 { Seq::empty() } else { fragment_wire(fs[0]) + fragments_wire(fs.skip(1)) }
}

/// The section: how many fragments, then the fragments.
pub open spec fn section_wire(fs: Seq<FragmentView>) -> Seq<u8> {
    crate::encoding::uvarint_bytes(fs.len()) + fragments_wire(fs)
}

/// One fragment off the front of some bytes. A fragment has at least one
/// sequence, and its sequences descend.
pub open spec fn parse_fragment(s: Seq<u8>) -> Option<(FragmentView, Seq<u8>)> {
    match crate::edit_codec::parse_bytes(s) {
        None => None,
        Some((start, s)) => match crate::edit_codec::parse_bytes(s) {
            None => None,
            Some((end, s)) => match crate::encoding::parse_uvarint(s) {
                None => None,
                Some((n, s)) => match crate::edit_codec::parse_ids(s, n as nat) {
                    None => None,
                    Some((seqs, s)) => if n == 0 || !descending(seqs) {
                        None
                    } else {
                        Some((FragmentView { start, end, seqs }, s))
                    },
                },
            },
        },
    }
}

pub open spec fn parse_fragments(s: Seq<u8>, n: nat) -> Option<(Seq<FragmentView>, Seq<u8>)>
    decreases n,
{
    if n == 0 {
        Some((Seq::empty(), s))
    } else {
        match parse_fragment(s) {
            None => None,
            Some((f, s)) => match parse_fragments(s, (n - 1) as nat) {
                None => None,
                Some((fs, s)) => Some((seq![f] + fs, s)),
            },
        }
    }
}

/// The fragments, if `s` is exactly one section.
pub open spec fn parse_section(s: Seq<u8>) -> Option<Seq<FragmentView>> {
    match crate::encoding::parse_uvarint(s) {
        None => None,
        Some((n, s)) => match parse_fragments(s, n as nat) {
            None => None,
            Some((fs, s)) => if s.len() == 0 { Some(fs) } else { None },
        },
    }
}

/// Whether fragments can be written and read back.
pub open spec fn section_fits(fs: Seq<FragmentView>) -> bool {
    &&& fs.len() <= u64::MAX
    &&& forall|i: int| 0 <= i < fs.len() ==> (#[trigger] fs[i]).start.len() <= u64::MAX && fs[i].end.len() <= u64::MAX && 0
        < fs[i].seqs.len() <= u64::MAX && descending(fs[i].seqs)
}

proof fn lemma_fragment_trip(f: FragmentView, rest: Seq<u8>)
    requires
        f.start.len() <= u64::MAX,
        f.end.len() <= u64::MAX,
        0 < f.seqs.len() <= u64::MAX,
        descending(f.seqs),
    ensures
        parse_fragment(fragment_wire(f) + rest) == Some((f, rest)),
{
    let w1 = crate::edit_codec::bytes_wire(f.start);
    let w2 = crate::edit_codec::bytes_wire(f.end);
    let w3 = crate::encoding::uvarint_bytes(f.seqs.len());
    let w4 = crate::edit_codec::ids_wire(f.seqs);
    crate::encoding::lemma_cat_assoc(w1, w2 + (w3 + w4), rest);
    crate::encoding::lemma_cat_assoc(w2, w3 + w4, rest);
    crate::encoding::lemma_cat_assoc(w3, w4, rest);
    crate::edit_trip::lemma_bytes_trip(f.start, w2 + (w3 + (w4 + rest)));
    crate::edit_trip::lemma_bytes_trip(f.end, w3 + (w4 + rest));
    crate::encoding::lemma_uvarint_round_trip(f.seqs.len() as u64, w4 + rest);
    crate::edit_trip::lemma_ids_trip(f.seqs, rest);
}

proof fn lemma_fragments_trip(fs: Seq<FragmentView>, rest: Seq<u8>)
    requires
        section_fits(fs),
    ensures
        parse_fragments(fragments_wire(fs) + rest, fs.len()) == Some((fs, rest)),
    decreases fs.len(),
{
    if fs.len() == 0 {
        crate::encoding::lemma_cat_empty(rest);
        assert(fs =~= Seq::empty());
    } else {
        let more = fs.skip(1);
        assert forall|i: int| 0 <= i < more.len() implies (#[trigger] more[i]).start.len() <= u64::MAX && more[i].end.len() <= u64::MAX && 0
            < more[i].seqs.len() <= u64::MAX && descending(more[i].seqs) by {
            assert(more[i] == fs[i + 1]);
        }
        lemma_fragments_trip(more, rest);
        lemma_fragment_trip(fs[0], fragments_wire(more) + rest);
        crate::encoding::lemma_cat_assoc(fragment_wire(fs[0]), fragments_wire(more), rest);
        assert(fs =~= seq![fs[0]] + more);
    }
}

/// Fragments written as a section are read back.
pub proof fn lemma_section_round_trip(fs: Seq<FragmentView>)
    requires
        section_fits(fs),
    ensures
        parse_section(section_wire(fs)) == Some(fs),
{
    lemma_fragments_trip(fs, Seq::empty());
    crate::encoding::lemma_cat_empty(fragments_wire(fs));
    crate::encoding::lemma_uvarint_round_trip(fs.len() as u64, fragments_wire(fs));
}

fn append_fragment(b: &mut Vec<u8>, f: &Fragment)
    ensures
        final(b)@ == old(b)@ + fragment_wire(f@),
{
    let ghost b0 = b@;
    append_bytes(b, f.start.as_slice());
    append_bytes(b, f.end.as_slice());
    append_uvarint(b, f.seqs.len() as u64);
    crate::edit_write::append_ids(b, &f.seqs);
    proof {
        let w1 = crate::edit_codec::bytes_wire(f.start@);
        let w2 = crate::edit_codec::bytes_wire(f.end@);
        let w3 = crate::encoding::uvarint_bytes(f.seqs@.len());
        let w4 = crate::edit_codec::ids_wire(f.seqs@);
        crate::encoding::lemma_cat_assoc(b0 + w1 + w2, w3, w4);
        crate::encoding::lemma_cat_assoc(b0 + w1, w2, w3 + w4);
        crate::encoding::lemma_cat_assoc(b0, w1, w2 + (w3 + w4));
    }
}

/// Fragments as the bytes of a table's section.
pub fn encode_fragments(frags: &[Fragment]) -> (r: Vec<u8>)
    ensures
        r@ == section_wire(fragment_views(frags@)),
{
    let mut b: Vec<u8> = Vec::new();
    append_uvarint(&mut b, frags.len() as u64);
    let ghost fs = fragment_views(frags@);
    let ghost b1 = b@;
    proof {
        crate::encoding::lemma_cat_empty(crate::encoding::uvarint_bytes(fs.len()));
        assert(fs.skip(0) =~= fs);
    }
    let mut i: usize = 0;
    while i < frags.len()
        invariant
            i <= frags@.len(),
            fs == fragment_views(frags@),
            b@ + fragments_wire(fs.skip(i as int)) == b1 + fragments_wire(fs),
        decreases frags@.len() - i,
    {
        let ghost bi = b@;
        proof {
            assert(fs.skip(i as int).skip(1) =~= fs.skip(i + 1));
            assert(fs.skip(i as int)[0] == frags@[i as int]@);
            crate::encoding::lemma_cat_assoc(bi, fragment_wire(frags@[i as int]@), fragments_wire(fs.skip(i + 1)));
        }
        append_fragment(&mut b, &frags[i]);
        i += 1;
    }
    proof {
        crate::encoding::lemma_cat_empty(b@);
    }
    b
}

fn malformed() -> (r: OndaError)
    ensures
        r is Corruption,
{
    OndaError::Corruption(String::from_str("sst: malformed range-fragment section"))
}

fn is_descending(v: &Vec<u64>) -> (r: bool)
    ensures
        r == descending(v@),
{
    let mut i: usize = 1;
    while i < v.len()
        invariant
            1 <= i,
            i <= v@.len() || v@.len() == 0,
            forall|p: int, q: int| 0 <= p < q < i && q < v@.len() ==> #[trigger] v@[p] > #[trigger] v@[q],
        decreases v@.len() - i,
    {
        if v[i - 1] <= v[i] {
            assert(!(v@[i - 1] > v@[i as int]));
            return false;
        }
        assert forall|p: int, q: int| 0 <= p < q < i + 1 && q < v@.len() implies #[trigger] v@[p] > #[trigger] v@[q] by {
            if q == i && p < i - 1 {
                assert(v@[p] > v@[i - 1]);
            }
        }
        i += 1;
    }
    true
}

fn take_fragment<'a>(p: &'a [u8]) -> (r: Option<(Fragment, &'a [u8])>)
    ensures
        match r {
            Some((f, rest)) => parse_fragment(p@) == Some((f@, rest@)),
            None => parse_fragment(p@) is None,
        },
{
    let (start, p) = match take_prefixed(p) { Some(x) => x, None => { return None; } };
    let (end, p) = match take_prefixed(p) { Some(x) => x, None => { return None; } };
    let (n, p) = match take_uvarint(p) { Some(x) => x, None => { return None; } };
    if n == 0 {
        return None;
    }
    let (seqs, p) = match take_uvarints(p, n) { Some(x) => x, None => { return None; } };
    if !is_descending(&seqs) {
        return None;
    }
    Some((Fragment { start: copy_bytes(start), end: copy_bytes(end), seqs }, p))
}

/// Fragments from exactly one section.
pub fn decode_fragments(p: &[u8]) -> (r: Result<Vec<Fragment>, OndaError>)
    ensures
        match parse_section(p@) {
            Some(fs) => r is Ok && fragment_views(r->Ok_0@) == fs,
            None => r is Err && r->Err_0 is Corruption,
        },
{
    let (count, rest) = match take_uvarint(p) {
        Some(x) => x,
        None => {
            return Err(malformed());
        },
    };
    let mut cur = rest;
    let cap: usize = if count < 4096 { count as usize } else { 4096 };
    let mut out: Vec<Fragment> = Vec::with_capacity(cap);
    let mut i: u64 = 0;
    proof {
        assert(fragment_views(out@) =~= Seq::empty());
        match parse_fragments(rest@, count as nat) {
            Some((vs, s)) => {
                assert(fragment_views(out@) + vs =~= vs);
            },
            None => {},
        }
    }
    while i < count
        invariant
            i <= count,
            crate::encoding::parse_uvarint(p@) == Some((count, rest@)),
            parse_fragments(rest@, count as nat) == (match parse_fragments(cur@, (count - i) as nat) {
                Some((vs, s)) => Some((fragment_views(out@) + vs, s)),
                None => None::<(Seq<FragmentView>, Seq<u8>)>,
            }),
        decreases count - i,
    {
        let ghost o0 = out@;
        match take_fragment(cur) {
            None => {
                return Err(malformed());
            },
            Some((f, more)) => {
                let ghost fv = f@;
                out.push(f);
                cur = more;
                i += 1;
                proof {
                    match parse_fragments(cur@, (count - i) as nat) {
                        Some((vs, s)) => {
                            assert(fragment_views(o0) + (seq![fv] + vs) =~= fragment_views(out@) + vs);
                        },
                        None => {},
                    }
                }
            },
        }
    }
    assert(fragment_views(out@) + Seq::<FragmentView>::empty() =~= fragment_views(out@));
    if cur.len() != 0 {
        return Err(malformed());
    }
    Ok(out)
}

// ---------------------------------------------------------------------------
// What is covered
// ---------------------------------------------------------------------------

/// The answer for a key is the newest range at or below the snapshot that holds
/// the key, from its start up to but not including its end; there is none if
/// and only if no such range is.
pub proof fn lemma_answer_is_the_newest_range<C: Comparator>(
    c: C,
    spans: Seq<SpanView>,
    key: Seq<u8>,
    read_seq: u64,
    r: Option<u64>,
    i: int,
)
    requires
        newest_span(c, spans, key, read_seq, r),
    ensures
        0 <= i < spans.len() && c.le(spans[i].start, key) && !c.le(spans[i].end, key) && spans[i].seq <= read_seq ==> (r matches Some(x)
            && spans[i].seq <= x),
        r matches Some(x) ==> x <= read_seq && exists|k: int|
            0 <= k < spans.len() && (#[trigger] spans[k]).seq == x && c.le(spans[k].start, key) && !c.le(spans[k].end, key),
{
    if 0 <= i < spans.len() && c.le(spans[i].start, key) && !c.le(spans[i].end, key) {
        assert(span_deletes(c, spans, key, spans[i].seq));
    }
    if let Some(x) = r {
        assert(span_deletes(c, spans, key, x));
        let k = choose|k: int| 0 <= k < spans.len() && (#[trigger] spans[k]).seq == x && within(c, spans[k].start, spans[k].end, key);
        assert(spans[k].seq == x);
    }
}

/// The same of fragments, each of which stands for its sequences.
pub proof fn lemma_answer_is_the_newest_fragment<C: Comparator>(
    c: C,
    frags: Seq<FragmentView>,
    key: Seq<u8>,
    read_seq: u64,
    r: Option<u64>,
    i: int,
    k: int,
)
    requires
        newest_fragment(c, frags, key, read_seq, r),
    ensures
        0 <= i < frags.len() && 0 <= k < frags[i].seqs.len() && c.le(frags[i].start, key) && !c.le(frags[i].end, key) && frags[i].seqs[k]
            <= read_seq ==> (r matches Some(x) && frags[i].seqs[k] <= x),
        r matches Some(x) ==> x <= read_seq && exists|j: int|
            0 <= j < frags.len() && (#[trigger] frags[j]).seqs.contains(x) && c.le(frags[j].start, key) && !c.le(frags[j].end, key),
{
    if 0 <= i < frags.len() && 0 <= k < frags[i].seqs.len() && c.le(frags[i].start, key) && !c.le(frags[i].end, key) {
        assert(frags[i].seqs.contains(frags[i].seqs[k]));
        assert(fragment_deletes(c, frags, key, frags[i].seqs[k]));
    }
    if let Some(x) = r {
        assert(fragment_deletes(c, frags, key, x));
        let j = choose|j: int| 0 <= j < frags.len() && (#[trigger] frags[j]).seqs.contains(x) && within(c, frags[j].start, frags[j].end, key);
        assert(frags[j].seqs.contains(x));
    }
}

/// Fragments in order share no key: at most one holds any key. Each but the
/// first is known to hold one, and each deletes, its newest sequence first.
pub proof fn lemma_fragments_share_no_key<C: Comparator>(c: C, frags: Seq<FragmentView>, i: int, j: int, key: Seq<u8>)
    requires
        fragments_apart(c, frags),
        0 <= i < j < frags.len(),
    ensures
        !(c.le(frags[i].start, key) && !c.le(frags[i].end, key) && c.le(frags[j].start, key) && !c.le(frags[j].end, key)),
        !c.le(frags[j].end, frags[j].start),
        frags[i].seqs.len() > 0,
        forall|k: int| 0 < k < frags[i].seqs.len() ==> #[trigger] frags[i].seqs[k] < frags[i].seqs[0],
{
    crate::comparator::lemma_order(c);
    assert(c.le(frags[i].end, frags[j].start));
}

/// A fragmentation of ranges, cut to an interval, deletes at each key of the
/// interval what the ranges delete there, and nothing outside it.
pub proof fn lemma_fragmentation_deletes_the_same<C: Comparator>(
    c: C,
    spans: Seq<SpanView>,
    lower: Option<Seq<u8>>,
    upper: Option<Seq<u8>>,
    frags: Seq<FragmentView>,
    i: int,
    key: Seq<u8>,
)
    requires
        is_fragmentation(c, spans, lower, upper, frags),
    ensures
        0 <= i < spans.len() && c.le(spans[i].start, key) && !c.le(spans[i].end, key) && (lower matches Some(l) ==> c.le(l, key)) && (
        upper matches Some(u) ==> !c.le(u, key)) ==> exists|j: int|
            0 <= j < frags.len() && (#[trigger] frags[j]).seqs.contains(spans[i].seq) && c.le(frags[j].start, key) && !c.le(frags[j].end, key),
        0 <= i < frags.len() && c.le(frags[i].start, key) && !c.le(frags[i].end, key) ==> {
            &&& lower matches Some(l) ==> c.le(l, key)
            &&& upper matches Some(u) ==> !c.le(u, key)
            &&& forall|k: int|
                0 <= k < frags[i].seqs.len() ==> exists|j: int|
                    0 <= j < spans.len() && (#[trigger] spans[j]).seq == #[trigger] frags[i].seqs[k] && c.le(spans[j].start, key) && !c.le(
                        spans[j].end,
                        key,
                    )
        },
{
    if 0 <= i < spans.len() && c.le(spans[i].start, key) && !c.le(spans[i].end, key) && in_interval(c, lower, upper, key) {
        assert(span_deletes(c, spans, key, spans[i].seq));
        assert(fragment_deletes(c, frags, key, spans[i].seq));
    }
    if 0 <= i < frags.len() && c.le(frags[i].start, key) && !c.le(frags[i].end, key) {
        assert(frags[i].seqs.contains(frags[i].seqs[0]));
        assert(fragment_deletes(c, frags, key, frags[i].seqs[0]));
        assert forall|k: int| 0 <= k < frags[i].seqs.len() implies exists|j: int|
            0 <= j < spans.len() && (#[trigger] spans[j]).seq == #[trigger] frags[i].seqs[k] && c.le(spans[j].start, key) && !c.le(
                spans[j].end,
                key,
            ) by {
            assert(frags[i].seqs.contains(frags[i].seqs[k]));
            assert(fragment_deletes(c, frags, key, frags[i].seqs[k]));
            assert(span_deletes(c, spans, key, frags[i].seqs[k]));
        }
    }
}

/// Several sources together delete what one of them deletes.
pub proof fn lemma_sources_delete_together<C: Comparator>(c: C, sources: Seq<Seq<FragmentView>>, more: Seq<FragmentView>, key: Seq<u8>, seq: u64)
    ensures
        source_deletes(c, sources.push(more), key, seq) <==> source_deletes(c, sources, key, seq) || fragment_deletes(c, more, key, seq),
        !source_deletes(c, Seq::empty(), key, seq),
{
    let all = sources.push(more);
    if source_deletes(c, sources, key, seq) {
        let i = choose|i: int| 0 <= i < sources.len() && fragment_deletes(c, #[trigger] sources[i], key, seq);
        assert(all[i] == sources[i]);
    }
    assert(all[sources.len() as int] == more);
    if source_deletes(c, all, key, seq) && !fragment_deletes(c, more, key, seq) {
        let i = choose|i: int| 0 <= i < all.len() && fragment_deletes(c, #[trigger] all[i], key, seq);
        assert(sources[i] == all[i]);
    }
}

} // verus!
