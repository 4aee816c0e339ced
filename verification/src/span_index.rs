//! Recently committed writes, kept so that a transaction can see whether
//! someone else wrote what it read.

use vstd::prelude::*;
use vstd::string::StringExecFns;

use crate::comparator::Comparator;
use crate::encoding::copy_bytes;
use crate::error::OndaError;

verus! {

/// One committed write: a key, or the keys from `start` up to but not
/// including `end`.
#[derive(Debug, Clone, PartialEq, Eq)]
pub struct Marker {
    pub cf: u64,
    pub start: Vec<u8>,
    pub end: Option<Vec<u8>>,
    pub seq: u64,
}

#[verifier::ext_equal]
pub struct MarkerView {
    pub cf: u64,
    pub start: Seq<u8>,
    pub end: Option<Seq<u8>>,
    pub seq: u64,
}

impl View for Marker {
    type V = MarkerView;

    open spec fn view(&self) -> MarkerView {
        MarkerView { cf: self.cf, start: self.start@, end: crate::manifest::opt_key(self.end), seq: self.seq }
    }
}

pub open spec fn marker_views(s: Seq<Marker>) -> Seq<MarkerView> {
    s.map_values(|m: Marker| m@)
}

/// Whether a marker touches `[start, end)`.
pub open spec fn marker_overlaps<C: Comparator>(c: C, m: MarkerView, start: Seq<u8>, end: Seq<u8>) -> bool {
    match m.end {
        None => c.le(start, m.start) && crate::comparator::key_lt(c, m.start, end),
        Some(e) => crate::comparator::key_lt(c, m.start, end) && crate::comparator::key_lt(c, start, e),
    }
}

/// Whether a marker covers the single key `key`.
pub open spec fn marker_covers<C: Comparator>(c: C, m: MarkerView, key: Seq<u8>) -> bool {
    match m.end {
        None => c.le(m.start, key) && c.le(key, m.start),
        Some(e) => c.le(m.start, key) && crate::comparator::key_lt(c, key, e),
    }
}

/// What stands in the way of a range writer.
pub open spec fn blocks_range<C: Comparator>(c: C, m: MarkerView, cf: u64, start: Seq<u8>, end: Seq<u8>, read_seq: u64) -> bool {
    m.cf == cf && m.seq > read_seq && marker_overlaps(c, m, start, end)
}

/// What stands in the way of a point writer: ranges only.
pub open spec fn blocks_point<C: Comparator>(c: C, m: MarkerView, cf: u64, key: Seq<u8>, read_seq: u64) -> bool {
    m.cf == cf && m.end is Some && m.seq > read_seq && marker_covers(c, m, key)
}

impl Marker {
    fn overlaps<C: Comparator>(&self, ord: &C, start: &[u8], end: &[u8]) -> (r: bool)
        ensures
            r == marker_overlaps(*ord, self@, start@, end@),
    {
        match &self.end {
            None => ord.compare(self.start.as_slice(), start).is_ge() && ord.compare(self.start.as_slice(), end).is_lt(),
            Some(e) => ord.compare(self.start.as_slice(), end).is_lt() && ord.compare(start, e.as_slice()).is_lt(),
        }
    }

    fn covers<C: Comparator>(&self, ord: &C, key: &[u8]) -> (r: bool)
        ensures
            r == marker_covers(*ord, self@, key@),
    {
        match &self.end {
            None => ord.compare(self.start.as_slice(), key).is_eq(),
            Some(e) => ord.compare(self.start.as_slice(), key).is_le() && ord.compare(e.as_slice(), key).is_gt(),
        }
    }
}

/// The markers newer than `below`, in order.
pub open spec fn newer(ms: Seq<MarkerView>, below: u64) -> Seq<MarkerView>
    decreases ms.len(),
{
    if ms.len() == 0 {
        Seq::empty()
    } else {
        let r = newer(ms.drop_last(), below);
        if ms.last().seq > below { r.push(ms.last()) } else { r }
    }
}

/// Slots promised to a commit and not yet used.
pub struct SpanReservation {
    outstanding: usize,
}

impl SpanReservation {
    /// Slots not yet used.
    pub closed spec fn outstanding(self) -> nat {
        self.outstanding as nat
    }

    /// Slots not yet used.
    pub fn remaining(&self) -> (r: usize)
        ensures
            r == self.outstanding(),
    {
        self.outstanding
    }
}

/// The committed writes of a database, at most `capacity` of them.
pub struct SpanIndex {
    markers: Vec<Marker>,
    reserved: usize,
    capacity: usize,
    pruned: u64,
    overflow_seq: u64,
}

/// The first marker that blocks, or the sequence of a commit that could not
/// be recorded.
pub open spec fn is_first_blocker(ms: Seq<MarkerView>, blocks: spec_fn(MarkerView) -> bool, r: Option<u64>) -> bool {
    match r {
        Some(x) => exists|i: int| 0 <= i < ms.len() && blocks(#[trigger] ms[i]) && x == ms[i].seq && forall|j: int| 0 <= j < i ==> !blocks(#[trigger] ms[j]),
        None => forall|i: int| 0 <= i < ms.len() ==> !blocks(#[trigger] ms[i]),
    }
}

impl SpanIndex {
    pub closed spec fn markers(self) -> Seq<MarkerView> {
        marker_views(self.markers@)
    }

    /// Slots promised and not yet used.
    pub closed spec fn reserved(self) -> nat {
        self.reserved as nat
    }

    pub closed spec fn capacity(self) -> nat {
        self.capacity as nat
    }

    pub closed spec fn pruned_count(self) -> u64 {
        self.pruned
    }

    /// The newest commit that could not be recorded; 0 for none.
    pub closed spec fn overflow(self) -> u64 {
        self.overflow_seq
    }

    /// Markers and promised slots together never exceed the capacity.
    pub open spec fn valid(self) -> bool {
        self.markers().len() + self.reserved() <= self.capacity() && self.capacity() >= 1
    }

    /// An empty index; a capacity of 0 counts as 1.
    pub fn new(capacity: usize) -> (r: SpanIndex)
        ensures
            r.valid(),
            r.markers() == Seq::<MarkerView>::empty(),
            r.reserved() == 0,
            r.capacity() == (if capacity == 0 { 1 } else { capacity as nat }),
            r.pruned_count() == 0,
            r.overflow() == 0,
    {
        let cap: usize = if capacity == 0 { 1 } else { capacity };
        let r = SpanIndex { markers: Vec::new(), reserved: 0, capacity: cap, pruned: 0, overflow_seq: 0 };
        assert(r.markers() =~= Seq::empty());
        r
    }

    /// Record that a commit at `seq` could not be recorded.
    pub fn note_overflow(&mut self, seq: u64)
        ensures
            final(self).overflow() == (if seq > old(self).overflow() { seq } else { old(self).overflow() }),
            final(self).markers() == old(self).markers(),
            final(self).reserved() == old(self).reserved(),
            final(self).capacity() == old(self).capacity(),
            final(self).pruned_count() == old(self).pruned_count(),
    {
        if seq > self.overflow_seq {
            self.overflow_seq = seq;
        }
    }

    /// Promise `n` slots if they are free right now.
    pub fn try_reserve(&mut self, n: usize) -> (r: Option<SpanReservation>)
        requires
            old(self).valid(),
        ensures
            final(self).valid(),
            r is Some <==> (n == 0 || old(self).markers().len() + old(self).reserved() + n <= old(self).capacity()),
            r is Some ==> r->0.outstanding() == n && final(self).reserved() == old(self).reserved() + n,
            r is None ==> final(self).reserved() == old(self).reserved(),
            final(self).markers() == old(self).markers(),
            final(self).capacity() == old(self).capacity(),
            final(self).pruned_count() == old(self).pruned_count(),
            final(self).overflow() == old(self).overflow(),
    {
        if n == 0 {
            return Some(SpanReservation { outstanding: 0 });
        }
        assert(self.markers().len() == self.markers@.len());
        let used = self.markers.len() + self.reserved;
        if n <= self.capacity - used {
            self.reserved = self.reserved + n;
            Some(SpanReservation { outstanding: n })
        } else {
            None
        }
    }

    /// Give back the slots of a reservation that were not used.
    pub fn release(&mut self, res: SpanReservation)
        requires
            old(self).valid(),
        ensures
            final(self).valid(),
            final(self).reserved() == (if res.outstanding() <= old(self).reserved() {
                (old(self).reserved() - res.outstanding()) as nat
            } else {
                0
            }),
            final(self).markers() == old(self).markers(),
            final(self).capacity() == old(self).capacity(),
            final(self).pruned_count() == old(self).pruned_count(),
            final(self).overflow() == old(self).overflow(),
    {
        self.reserved = if res.outstanding <= self.reserved { self.reserved - res.outstanding } else { 0 };
    }

    /// How many markers are held.
    pub fn len(&self) -> (r: usize)
        ensures
            r == self.markers().len(),
    {
        self.markers.len()
    }

    /// How many markers pruning has dropped, modulo the width of the counter.
    pub fn pruned(&self) -> (r: u64)
        ensures
            r == self.pruned_count(),
    {
        self.pruned
    }

    /// Drop every marker at or below `below`, the oldest live snapshot, and
    /// forget an unrecorded commit that old.
    pub fn prune(&mut self, below: u64)
        requires
            old(self).valid(),
        ensures
            final(self).valid(),
            final(self).markers() == newer(old(self).markers(), below),
            final(self).overflow() == (if old(self).overflow() <= below { 0 } else { old(self).overflow() }),
            final(self).pruned_count() as int == (old(self).pruned_count() + (old(self).markers().len() - final(self).markers().len()))
                % 0x1_0000_0000_0000_0000,
            final(self).reserved() == old(self).reserved(),
            final(self).capacity() == old(self).capacity(),
    {
        let ghost all = self.markers();
        let ghost start = *self;
        let before = self.markers.len();
        let ghost mut k: int = 0;
        let mut i: usize = 0;
        assert(all.take(0) =~= Seq::empty());
        assert(newer(all.take(0), below) + all.skip(0) =~= all);
        while i < self.markers.len()
            invariant
                0 <= k <= all.len(),
                i <= self.markers@.len(),
                self.markers@.len() <= before,
                i == newer(all.take(k), below).len(),
                marker_views(self.markers@) == newer(all.take(k), below) + all.skip(k),
                self.reserved == start.reserved,
                self.capacity == start.capacity,
                self.pruned == start.pruned,
                self.overflow_seq == start.overflow_seq,
            decreases self.markers@.len() - i,
        {
            let ghost v0 = self.markers@;
            let ghost done = newer(all.take(k), below);
            proof {
                assert(marker_views(v0).len() == v0.len());
                assert(k < all.len());
                assert(marker_views(v0)[i as int] == all.skip(k)[0]);
                assert(v0[i as int]@ == all[k]);
                assert(all.take(k + 1).drop_last() =~= all.take(k));
                assert(all.take(k + 1).last() == all[k]);
            }
            if self.markers[i].seq > below {
                i += 1;
                assert(marker_views(self.markers@) =~= done.push(all[k]) + all.skip(k + 1));
            } else {
                self.markers.remove(i);
                proof {
                    let a = marker_views(self.markers@);
                    let b = done + all.skip(k + 1);
                    assert(self.markers@ =~= v0.remove(i as int));
                    assert forall|q: int| 0 <= q < a.len() implies a[q] == b[q] by {
                        if q < i {
                            assert(marker_views(v0)[q] == done[q]);
                            assert(a[q] == v0[q]@);
                        } else {
                            assert(marker_views(v0)[q + 1] == all.skip(k)[q + 1 - done.len()]);
                            assert(a[q] == v0[q + 1]@);
                        }
                    }
                    assert(a =~= b);
                }
            }
            proof {
                k = k + 1;
            }
        }
        proof {
            assert(marker_views(self.markers@).len() == self.markers@.len());
            assert(k == all.len());
            assert(all.take(k) =~= all);
            assert(newer(all, below) + all.skip(k) =~= newer(all, below));
            assert(start.markers().len() == before);
        }
        let dropped: u64 = (before - self.markers.len()) as u64;
        if self.overflow_seq <= below {
            self.overflow_seq = 0;
        }
        self.pruned = self.pruned.wrapping_add(dropped);
    }

    /// One attempt to promise `n` slots to a range commit, after dropping what
    /// the oldest live snapshot no longer needs. Nothing means: wait, then ask
    /// `after_wait`.
    pub fn reserve(&mut self, n: usize, oldest: u64) -> (r: Result<Option<SpanReservation>, OndaError>)
        requires
            old(self).valid(),
        ensures
            final(self).valid(),
            final(self).capacity() == old(self).capacity(),
            n == 0 ==> r is Ok && r->Ok_0 is Some && r->Ok_0->0.outstanding() == 0 && *final(self) == *old(self),
            n > old(self).capacity() ==> r is Err && r->Err_0 is TooLarge && *final(self) == *old(self),
            0 < n <= old(self).capacity() ==> {
                &&& r is Ok
                &&& final(self).markers() == newer(old(self).markers(), oldest)
                &&& final(self).overflow() == (if old(self).overflow() <= oldest { 0 } else { old(self).overflow() })
                &&& final(self).pruned_count() as int == (old(self).pruned_count() + (old(self).markers().len() - final(self).markers().len()))
                    % 0x1_0000_0000_0000_0000
                &&& r->Ok_0 is Some <==> newer(old(self).markers(), oldest).len() + old(self).reserved() + n <= old(self).capacity()
                &&& r->Ok_0 is Some ==> r->Ok_0->0.outstanding() == n && final(self).reserved() == old(self).reserved() + n
                &&& r->Ok_0 is None ==> final(self).reserved() == old(self).reserved()
            },
    {
        if n == 0 {
            return Ok(Some(SpanReservation { outstanding: 0 }));
        }
        if n > self.capacity {
            return Err(OndaError::TooLarge(
                crate::text::with_number("transaction needs ", n as u64, " span-index slots, more than the index holds"),
            ));
        }
        self.prune(oldest);
        Ok(self.try_reserve(n))
    }

    /// After a wait for room: try again (`true`) or give up (`false`), or fail
    /// because the database is closing.
    pub fn after_wait(cancelled: bool, futile: bool, expired: bool) -> (r: Result<bool, OndaError>)
        ensures
            cancelled ==> r is Err && r->Err_0 is InvalidDb,
            !cancelled ==> r == Ok::<bool, OndaError>(!(futile || expired)),
    {
        if cancelled {
            return Err(OndaError::InvalidDb(
                String::from_str("database is closing while waiting for span-index capacity"),
            ));
        }
        Ok(!(futile || expired))
    }

    /// A commit newer than `read_seq` that wrote in `[start, end)`.
    pub fn range_conflict<C: Comparator>(&self, cf: u64, ord: &C, start: &[u8], end: &[u8], read_seq: u64) -> (r: Option<u64>)
        ensures
            self.overflow() > read_seq ==> r == Some(self.overflow()),
            self.overflow() <= read_seq ==> is_first_blocker(
                self.markers(),
                |m: MarkerView| blocks_range(*ord, m, cf, start@, end@, read_seq),
                r,
            ),
    {
        if self.overflow_seq > read_seq {
            return Some(self.overflow_seq);
        }
        let ghost ms = self.markers();
        let ghost blocks = |m: MarkerView| blocks_range(*ord, m, cf, start@, end@, read_seq);
        let mut i: usize = 0;
        while i < self.markers.len()
            invariant
                i <= self.markers@.len(),
                self.overflow_seq <= read_seq,
                ms == marker_views(self.markers@),
                blocks == (|m: MarkerView| blocks_range(*ord, m, cf, start@, end@, read_seq)),
                forall|j: int| 0 <= j < i ==> !blocks(#[trigger] ms[j]),
            decreases self.markers@.len() - i,
        {
            let m = &self.markers[i];
            assert(ms[i as int] == m@);
            if m.cf == cf && m.seq > read_seq && m.overlaps(ord, start, end) {
                assert(blocks(ms[i as int]));
                return Some(m.seq);
            }
            i += 1;
        }
        None
    }

    /// A range commit newer than `read_seq` that covers `key`.
    pub fn point_conflict<C: Comparator>(&self, cf: u64, ord: &C, key: &[u8], read_seq: u64) -> (r: Option<u64>)
        ensures
            self.overflow() > read_seq ==> r == Some(self.overflow()),
            self.overflow() <= read_seq ==> is_first_blocker(
                self.markers(),
                |m: MarkerView| blocks_point(*ord, m, cf, key@, read_seq),
                r,
            ),
    {
        if self.overflow_seq > read_seq {
            return Some(self.overflow_seq);
        }
        let ghost ms = self.markers();
        let ghost blocks = |m: MarkerView| blocks_point(*ord, m, cf, key@, read_seq);
        let mut i: usize = 0;
        while i < self.markers.len()
            invariant
                i <= self.markers@.len(),
                self.overflow_seq <= read_seq,
                ms == marker_views(self.markers@),
                blocks == (|m: MarkerView| blocks_point(*ord, m, cf, key@, read_seq)),
                forall|j: int| 0 <= j < i ==> !blocks(#[trigger] ms[j]),
            decreases self.markers@.len() - i,
        {
            let m = &self.markers[i];
            assert(ms[i as int] == m@);
            if m.cf == cf && m.end.is_some() && m.seq > read_seq && m.covers(ord, key) {
                assert(blocks(ms[i as int]));
                return Some(m.seq);
            }
            i += 1;
        }
        None
    }

    /// Record one point write in a promised slot.
    pub fn insert_point(&mut self, res: &mut SpanReservation, cf: u64, key: &[u8], seq: u64)
        requires
            old(self).valid(),
            0 < old(res).outstanding() <= old(self).reserved(),
        ensures
            final(self).valid(),
            final(self).markers() == old(self).markers().push(MarkerView { cf, start: key@, end: None, seq }),
            final(self).reserved() == old(self).reserved() - 1,
            final(res).outstanding() == old(res).outstanding() - 1,
            final(self).capacity() == old(self).capacity(),
            final(self).pruned_count() == old(self).pruned_count(),
            final(self).overflow() == old(self).overflow(),
    {
        self.insert(res, Marker { cf, start: copy_bytes(key), end: None, seq })
    }

    /// Record one range delete in a promised slot.
    pub fn insert_range(&mut self, res: &mut SpanReservation, cf: u64, start: &[u8], end: &[u8], seq: u64)
        requires
            old(self).valid(),
            0 < old(res).outstanding() <= old(self).reserved(),
        ensures
            final(self).valid(),
            final(self).markers() == old(self).markers().push(MarkerView { cf, start: start@, end: Some(end@), seq }),
            final(self).reserved() == old(self).reserved() - 1,
            final(res).outstanding() == old(res).outstanding() - 1,
            final(self).capacity() == old(self).capacity(),
            final(self).pruned_count() == old(self).pruned_count(),
            final(self).overflow() == old(self).overflow(),
    {
        self.insert(res, Marker { cf, start: copy_bytes(start), end: Some(copy_bytes(end)), seq })
    }

    fn insert(&mut self, res: &mut SpanReservation, marker: Marker)
        requires
            old(self).valid(),
            0 < old(res).outstanding() <= old(self).reserved(),
        ensures
            final(self).valid(),
            final(self).markers() == old(self).markers().push(marker@),
            final(self).reserved() == old(self).reserved() - 1,
            final(res).outstanding() == old(res).outstanding() - 1,
            final(self).capacity() == old(self).capacity(),
            final(self).pruned_count() == old(self).pruned_count(),
            final(self).overflow() == old(self).overflow(),
    {
        let ghost m0 = self.markers@;
        res.outstanding = res.outstanding - 1;
        self.reserved = self.reserved - 1;
        self.markers.push(marker);
        assert(marker_views(self.markers@) =~= marker_views(m0).push(marker@));
    }
}

proof fn lemma_newer_blockers(ms: Seq<MarkerView>, below: u64, blocks: spec_fn(MarkerView) -> bool, r: Option<u64>)
    requires
        forall|m: MarkerView| #[trigger] blocks(m) ==> m.seq > below,
    ensures
        is_first_blocker(newer(ms, below), blocks, r) <==> is_first_blocker(ms, blocks, r),
    decreases ms.len(),
{
    if ms.len() > 0 {
        let d = ms.drop_last();
        let nd = newer(d, below);
        let n = newer(ms, below);
        let last = ms.last();
        lemma_newer_blockers(d, below, blocks, r);
        lemma_newer_blockers(d, below, blocks, None);
        lemma_blocker_of_push(d, last, blocks, r);
        assert(d.push(last) =~= ms);
        if last.seq > below {
            lemma_blocker_of_push(nd, last, blocks, r);
        }
    }
}

proof fn lemma_blocker_of_push(d: Seq<MarkerView>, last: MarkerView, blocks: spec_fn(MarkerView) -> bool, r: Option<u64>)
    ensures
        is_first_blocker(d.push(last), blocks, r) <==> (if is_first_blocker(d, blocks, None) {
            if blocks(last) { r == Some(last.seq) } else { r is None }
        } else {
            r is Some && is_first_blocker(d, blocks, r)
        }),
{
    let ms = d.push(last);
    assert(forall|i: int| 0 <= i < d.len() ==> ms[i] == d[i]);
    assert(ms[d.len() as int] == last);
    if is_first_blocker(d, blocks, None) {
        match r {
            Some(x) => {
                if is_first_blocker(ms, blocks, r) {
                    let i = choose|i: int| 0 <= i < ms.len() && blocks(#[trigger] ms[i]) && x == ms[i].seq && forall|j: int| 0 <= j < i ==> !blocks(#[trigger] ms[j]);
                    if i < d.len() {
                        assert(!blocks(d[i]));
                    }
                }
                if blocks(last) && x == last.seq {
                    assert(blocks(ms[d.len() as int]));
                }
            },
            None => {
                if !blocks(last) {
                    assert forall|i: int| 0 <= i < ms.len() implies !blocks(#[trigger] ms[i]) by {
                        if i < d.len() {
                            assert(!blocks(d[i]));
                        }
                    }
                }
                if is_first_blocker(ms, blocks, r) {
                    assert(!blocks(ms[d.len() as int]));
                }
            },
        }
    } else {
        let b = choose|b: int| 0 <= b < d.len() && blocks(#[trigger] d[b]);
        assert(blocks(ms[b]));
        if let Some(x) = r {
            if is_first_blocker(ms, blocks, r) {
                let i = choose|i: int| 0 <= i < ms.len() && blocks(#[trigger] ms[i]) && x == ms[i].seq && forall|j: int| 0 <= j < i ==> !blocks(#[trigger] ms[j]);
                assert(i <= b);
                assert(blocks(d[i]));
                assert forall|j: int| 0 <= j < i implies !blocks(#[trigger] d[j]) by {
                    assert(!blocks(ms[j]));
                }
            }
            if is_first_blocker(d, blocks, r) {
                let i = choose|i: int| 0 <= i < d.len() && blocks(#[trigger] d[i]) && x == d[i].seq && forall|j: int| 0 <= j < i ==> !blocks(#[trigger] d[j]);
                assert(blocks(ms[i]));
                assert forall|j: int| 0 <= j < i implies !blocks(#[trigger] ms[j]) by {
                    assert(!blocks(d[j]));
                }
            }
        }
    }
}

/// Pruning at the oldest live snapshot changes the answer to no range writer
/// that reads at or above it.
pub proof fn lemma_prune_keeps_range_conflicts<C: Comparator>(
    c: C,
    ms: Seq<MarkerView>,
    below: u64,
    cf: u64,
    start: Seq<u8>,
    end: Seq<u8>,
    read_seq: u64,
    r: Option<u64>,
)
    requires
        read_seq >= below,
    ensures
        is_first_blocker(newer(ms, below), |m: MarkerView| blocks_range(c, m, cf, start, end, read_seq), r)
            <==> is_first_blocker(ms, |m: MarkerView| blocks_range(c, m, cf, start, end, read_seq), r),
{
    lemma_newer_blockers(ms, below, |m: MarkerView| blocks_range(c, m, cf, start, end, read_seq), r);
}

/// Pruning at the oldest live snapshot changes the answer to no point writer
/// that reads at or above it.
pub proof fn lemma_prune_keeps_point_conflicts<C: Comparator>(
    c: C,
    ms: Seq<MarkerView>,
    below: u64,
    cf: u64,
    key: Seq<u8>,
    read_seq: u64,
    r: Option<u64>,
)
    requires
        read_seq >= below,
    ensures
        is_first_blocker(newer(ms, below), |m: MarkerView| blocks_point(c, m, cf, key, read_seq), r)
            <==> is_first_blocker(ms, |m: MarkerView| blocks_point(c, m, cf, key, read_seq), r),
{
    lemma_newer_blockers(ms, below, |m: MarkerView| blocks_point(c, m, cf, key, read_seq), r);
}

// ---------------------------------------------------------------------------
// Conflicts as shared keys
// ---------------------------------------------------------------------------

/// Whether a committed write wrote `key`: it is a write of that key alone, or
/// of a range from its start up to but not including its end.
pub open spec fn wrote<C: Comparator>(c: C, m: MarkerView, key: Seq<u8>) -> bool {
    c.le(m.start, key) && match m.end {
        None => c.le(key, m.start),
        Some(e) => !c.le(e, key),
    }
}

/// Whether a committed write of the family, newer than `read_seq`, wrote some
/// key from `start` up to but not including `end`.
pub open spec fn wrote_within<C: Comparator>(c: C, m: MarkerView, cf: u64, start: Seq<u8>, end: Seq<u8>, read_seq: u64) -> bool {
    &&& m.cf == cf
    &&& m.seq > read_seq
    &&& exists|k: Seq<u8>| #[trigger] wrote(c, m, k) && c.le(start, k) && !c.le(end, k)
}

/// Whether a marker holds at least one key.
pub open spec fn holds_a_key<C: Comparator>(c: C, m: MarkerView) -> bool {
    m.end matches Some(e) ==> !c.le(e, m.start)
}

/// A marker stands in the way of a range writer if and only if it is of the
/// same family, newer than the snapshot that was read, and some key lies both
/// in the range and in what the marker covers.
pub proof fn lemma_range_blockers_share_a_key<C: Comparator>(c: C, m: MarkerView, cf: u64, start: Seq<u8>, end: Seq<u8>, read_seq: u64)
    requires
        holds_a_key(c, m),
        !c.le(end, start),
    ensures
        blocks_range(c, m, cf, start, end, read_seq) <==> wrote_within(c, m, cf, start, end, read_seq),
{
    crate::comparator::lemma_order(c);
    if marker_overlaps(c, m, start, end) {
        let k = match m.end {
            None => m.start,
            Some(e) => if c.le(start, m.start) { m.start } else { start },
        };
        assert(wrote(c, m, k) && c.le(start, k) && !c.le(end, k));
    }
    if exists|k: Seq<u8>| #[trigger] wrote(c, m, k) && c.le(start, k) && !c.le(end, k) {
        let k = choose|k: Seq<u8>| #[trigger] wrote(c, m, k) && c.le(start, k) && !c.le(end, k);
        assert(c.le(m.start, k) && c.le(start, k));
        match m.end {
            None => {
                assert(c.le(start, m.start));
                assert(!c.le(end, m.start));
            },
            Some(e) => {
                assert(!c.le(end, m.start));
                assert(!c.le(e, start));
            },
        }
    }
}

/// A range writer is told of a conflict if and only if some newer write of the
/// family shares a key with the range, and is then told the sequence of the
/// earliest recorded one.
pub proof fn lemma_range_conflict_is_a_shared_key<C: Comparator>(
    c: C,
    ms: Seq<MarkerView>,
    cf: u64,
    start: Seq<u8>,
    end: Seq<u8>,
    read_seq: u64,
    r: Option<u64>,
)
    requires
        forall|i: int| 0 <= i < ms.len() ==> holds_a_key(c, #[trigger] ms[i]),
        !c.le(end, start),
        is_first_blocker(ms, |m: MarkerView| blocks_range(c, m, cf, start, end, read_seq), r),
    ensures
        r is None <==> forall|i: int| 0 <= i < ms.len() ==> !wrote_within(c, #[trigger] ms[i], cf, start, end, read_seq),
        r matches Some(x) ==> exists|i: int|
            {
                &&& 0 <= i < ms.len()
                &&& wrote_within(c, #[trigger] ms[i], cf, start, end, read_seq)
                &&& x == ms[i].seq
                &&& forall|j: int| 0 <= j < i ==> !wrote_within(c, #[trigger] ms[j], cf, start, end, read_seq)
            },
{
    assert forall|i: int| 0 <= i < ms.len() implies blocks_range(c, #[trigger] ms[i], cf, start, end, read_seq) == wrote_within(
        c,
        ms[i],
        cf,
        start,
        end,
        read_seq,
    ) by {
        lemma_range_blockers_share_a_key(c, ms[i], cf, start, end, read_seq);
    }
    let blocks = |m: MarkerView| blocks_range(c, m, cf, start, end, read_seq);
    match r {
        Some(x) => {
            let i = choose|i: int|
                0 <= i < ms.len() && blocks(#[trigger] ms[i]) && x == ms[i].seq && forall|j: int| 0 <= j < i ==> !blocks(#[trigger] ms[j]);
            assert(wrote_within(c, ms[i], cf, start, end, read_seq));
            assert forall|j: int| 0 <= j < i implies !wrote_within(c, #[trigger] ms[j], cf, start, end, read_seq) by {
                assert(!blocks(ms[j]));
            }
        },
        None => {
            assert forall|i: int| 0 <= i < ms.len() implies !wrote_within(c, #[trigger] ms[i], cf, start, end, read_seq) by {
                assert(!blocks(ms[i]));
            }
        },
    }
}

/// A writer of one key is told of a conflict if and only if some newer range
/// of the family covers the key, and is then told the sequence of the earliest
/// recorded one.
pub proof fn lemma_point_conflict_is_a_covering_range<C: Comparator>(
    c: C,
    ms: Seq<MarkerView>,
    cf: u64,
    key: Seq<u8>,
    read_seq: u64,
    r: Option<u64>,
)
    requires
        is_first_blocker(ms, |m: MarkerView| blocks_point(c, m, cf, key, read_seq), r),
    ensures
        r is None <==> forall|i: int|
            0 <= i < ms.len() ==> !((#[trigger] ms[i]).cf == cf && ms[i].seq > read_seq && ms[i].end is Some && wrote(c, ms[i], key)),
        r matches Some(x) ==> exists|i: int|
            {
                &&& 0 <= i < ms.len()
                &&& (#[trigger] ms[i]).cf == cf && ms[i].seq > read_seq && ms[i].end is Some && wrote(c, ms[i], key)
                &&& x == ms[i].seq
                &&& forall|j: int|
                    0 <= j < i ==> !((#[trigger] ms[j]).cf == cf && ms[j].seq > read_seq && ms[j].end is Some && wrote(c, ms[j], key))
            },
{
    let blocks = |m: MarkerView| blocks_point(c, m, cf, key, read_seq);
    match r {
        Some(x) => {
            let i = choose|i: int|
                0 <= i < ms.len() && blocks(#[trigger] ms[i]) && x == ms[i].seq && forall|j: int| 0 <= j < i ==> !blocks(#[trigger] ms[j]);
            assert(ms[i].cf == cf && wrote(c, ms[i], key));
            assert forall|j: int| 0 <= j < i implies !((#[trigger] ms[j]).cf == cf && ms[j].seq > read_seq && ms[j].end is Some && wrote(
                c,
                ms[j],
                key,
            )) by {
                assert(!blocks(ms[j]));
            }
        },
        None => {
            assert forall|i: int| 0 <= i < ms.len() implies !((#[trigger] ms[i]).cf == cf && ms[i].seq > read_seq && ms[i].end is Some && wrote(
                c,
                ms[i],
                key,
            )) by {
                assert(!blocks(ms[i]));
            }
        },
    }
}

/// Pruning keeps the markers newer than the snapshot, in their order, and no
/// others.
pub proof fn lemma_pruning_keeps_what_is_newer(ms: Seq<MarkerView>, below: u64)
    ensures
        newer(ms, below) == ms.filter(|m: MarkerView| m.seq > below),
    decreases ms.len(),
{
    reveal(Seq::filter);
    if ms.len() > 0 {
        lemma_pruning_keeps_what_is_newer(ms.drop_last(), below);
    }
}

} // verus!
