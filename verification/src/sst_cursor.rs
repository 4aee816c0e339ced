//! A position among the entries of one data block.

use vstd::prelude::*;

use crate::comparator::Comparator;
use crate::encoding::{append_slice, copy_bytes, read_u32_at};
use crate::error::OndaError;
use crate::format::Fault;
use crate::place::compare_places;
use crate::sst_block::{anchor_is_before, decode_step, restart_lower_bound, split_block, Codec, Placed, StoredValue};
use crate::sst_entry::{decode_delta_header, decode_entry, DecEntry};
use crate::sst_run::{RunCursor, MIN_RUN_ARENA_BYTES};

verus! {

/// The key before entry `j`.
pub open spec fn key_before(es: Seq<Placed>, j: int) -> Seq<u8> {
    if j <= 0 { Seq::empty() } else { es[j - 1].key }
}

/// Whether a block can be read: all its entries can, and its anchors are
/// entries that stand on their own.
pub open spec fn sound(c: Codec, raw: Seq<u8>, restarts: Seq<usize>) -> bool {
    match crate::sst_block::entries_of(c, raw) {
        Err(_) => false,
        Ok(es) => c.delta ==> forall|k: int| 0 <= k < restarts.len() ==> crate::sst_block::has_anchor(c, es, (#[trigger] restarts[k]) as int),
    }
}

/// Whether anchors ascend within the entries, from the first on.
pub open spec fn restarts_fit(n: int, restarts: Seq<usize>) -> bool {
    &&& restarts.len() == 0 <==> n == 0
    &&& restarts.len() > 0 ==> restarts[0] == 0
    &&& forall|i: int| 0 <= i < restarts.len() ==> (#[trigger] restarts[i]) < n
    &&& forall|i: int, j: int| 0 <= i < j < restarts.len() ==> (#[trigger] restarts[i]) < (#[trigger] restarts[j])
}

/// Where run `r` ends.
pub open spec fn run_end(n: int, restarts: Seq<usize>, r: int) -> int {
    if r + 1 < restarts.len() { restarts[r + 1] as int } else { n }
}

/// The anchors of a block as numbers.
pub open spec fn restart_numbers(restarts: Seq<u8>) -> Seq<int> {
    Seq::new(crate::sst_block::restart_count(restarts) as nat, |i: int| crate::sst_block::restart_at(restarts, i))
}

pub open spec fn numbers(v: Seq<usize>) -> Seq<int> {
    v.map_values(|x: usize| x as int)
}

/// Whether an offset of the index can be read, and the next follows it.
pub open spec fn indexed(c: Codec, raw: Seq<u8>, offsets: Seq<usize>, k: int) -> bool {
    &&& crate::sst_block::parse_at(c, raw, offsets[k] as int, Seq::empty()) is Ok
    &&& k + 1 < offsets.len() ==> crate::sst_block::parse_at(c, raw, offsets[k] as int, Seq::empty())->Ok_0.next == offsets[k + 1]
}

/// Whether offsets are those of entries, from the first on.
pub open spec fn index_fits(c: Codec, raw: Seq<u8>, offsets: Seq<usize>) -> bool {
    &&& offsets.len() > 0 ==> offsets[0] == 0
    &&& forall|k: int| 0 <= k < offsets.len() ==> #[trigger] indexed(c, raw, offsets, k)
}

/// The entries of run `r`.
pub open spec fn run_at(c: Codec, raw: Seq<u8>, restarts: Seq<usize>, r: int) -> Result<Seq<Placed>, Fault> {
    crate::sst_run::run_of(c, raw, restarts[r] as int, run_end(raw.len() as int, restarts, r))
}

/// Entry `k`, as far as the entries up to it can be read.
pub open spec fn nth_entry(c: Codec, raw: Seq<u8>, k: int) -> Result<Placed, Fault>
    decreases k,
{
    if k <= 0 {
        crate::sst_block::parse_at(c, raw, 0, Seq::empty())
    } else {
        match nth_entry(c, raw, k - 1) {
            Err(f) => Err(f),
            Ok(p) => crate::sst_block::parse_at(c, raw, p.next, p.key),
        }
    }
}

/// The entry before the one at a spot, and its spot; none before the first. A
/// spot is a run and a number in it, and where keys are stored whole all
/// entries are one run. Where they are stored in part, the whole run of the
/// entry is read.
pub open spec fn entry_before(c: Codec, raw: Seq<u8>, restarts: Seq<usize>, spot: (int, int)) -> Option<Result<(Placed, (int, int)), Fault>> {
    if spot.1 > 0 {
        if c.delta {
            match run_at(c, raw, restarts, spot.0) {
                Err(f) => Some(Err(f)),
                Ok(rs) => Some(Ok((rs[spot.1 - 1], (spot.0, spot.1 - 1)))),
            }
        } else {
            match nth_entry(c, raw, spot.1 - 1) {
                Err(f) => Some(Err(f)),
                Ok(p) => Some(Ok((p, (spot.0, spot.1 - 1)))),
            }
        }
    } else if spot.0 > 0 {
        match run_at(c, raw, restarts, spot.0 - 1) {
            Err(f) => Some(Err(f)),
            Ok(rs) => Some(Ok((rs.last(), (spot.0 - 1, rs.len() - 1)))),
        }
    } else {
        None
    }
}

/// The last entry and its spot; none of a block without entries. Where keys
/// are stored in part, the last run alone is read.
pub open spec fn last_entry(c: Codec, raw: Seq<u8>, restarts: Seq<usize>) -> Option<Result<(Placed, (int, int)), Fault>> {
    if c.delta {
        if restarts.len() == 0 {
            None
        } else {
            match run_at(c, raw, restarts, restarts.len() - 1) {
                Err(f) => Some(Err(f)),
                Ok(rs) => Some(Ok((rs.last(), (restarts.len() - 1, rs.len() - 1)))),
            }
        }
    } else {
        match crate::sst_block::entries_of(c, raw) {
            Err(f) => Some(Err(f)),
            Ok(es) => if es.len() == 0 { None } else { Some(Ok((es.last(), (0, es.len() - 1)))) },
        }
    }
}

/// The spot of the entry behind the one at `spot`, where it stands at `off`.
pub open spec fn spot_behind(c: Codec, restarts: Seq<usize>, spot: (int, int), off: int) -> (int, int) {
    if c.delta && spot.0 + 1 < restarts.len() && restarts[spot.0 + 1] == off { (spot.0 + 1, 0) } else { (spot.0, spot.1 + 1) }
}

/// Whether a target belongs before entry `i`, so far as its neighbours tell.
pub open spec fn cuts_at<C: Comparator>(ord: C, es: Seq<Placed>, t: crate::place::Place, i: int) -> bool {
    &&& 0 <= i <= es.len()
    &&& i > 0 ==> crate::place::place_lt(ord, es[i - 1].place(), t)
    &&& i < es.len() ==> !crate::place::place_lt(ord, es[i].place(), t)
}

/// The run that is searched where `n` anchors come before a target.
pub open spec fn searched_run(n: int) -> int {
    if n > 0 { n - 1 } else { 0 }
}

/// Whether the search for a target may find `n` anchors before it, and it to
/// belong before entry `i` of the run that is searched.
pub open spec fn may_find<C: Comparator>(ord: C, c: Codec, raw: Seq<u8>, restarts: Seq<usize>, t: crate::place::Place, n: int, i: int) -> bool {
    if c.delta {
        restarts.len() > 0 ==> anchors_bound(ord, c, raw, restarts, t, n) && (run_at(c, raw, restarts, searched_run(n)) matches Ok(rs) ==> cuts_at(
            ord,
            rs,
            t,
            i,
        ))
    } else {
        crate::sst_block::entries_of(c, raw) matches Ok(es) ==> cuts_at(ord, es, t, i)
    }
}

/// The entry that such a search comes to, and its spot; none where the block
/// ends before it. Each run that it goes to is read as a whole.
pub open spec fn entry_found(c: Codec, raw: Seq<u8>, restarts: Seq<usize>, n: int, i: int) -> Option<Result<(Placed, (int, int)), Fault>> {
    if c.delta {
        let r = searched_run(n);
        if restarts.len() == 0 {
            None
        } else {
            match run_at(c, raw, restarts, r) {
                Err(f) => Some(Err(f)),
                Ok(rs) => if i < rs.len() {
                    Some(Ok((rs[i], (r, i))))
                } else if r + 1 < restarts.len() {
                    match run_at(c, raw, restarts, r + 1) {
                        Err(f) => Some(Err(f)),
                        Ok(rs) => Some(Ok((rs[0], (r + 1, 0)))),
                    }
                } else {
                    None
                },
            }
        }
    } else {
        match crate::sst_block::entries_of(c, raw) {
            Err(f) => Some(Err(f)),
            Ok(es) => if i < es.len() { Some(Ok((es[i], (0, i)))) } else { None },
        }
    }
}

/// Whether anchor `k` cannot be read, for the reason that `e` gives.
pub open spec fn anchor_blamed(c: Codec, raw: Seq<u8>, restarts: Seq<usize>, k: int, e: OndaError) -> bool {
    &&& c.delta
    &&& 0 <= k < restarts.len()
    &&& crate::sst_block::parse_anchor_at(c, raw, restarts[k] as int) matches Err(f) && crate::format::reports(e, f)
}

/// A position among the entries of a block.
pub struct BlockCursor {
    codec: Codec,
    raw: Vec<u8>,
    entries_len: usize,
    offsets: Vec<usize>,
    pos: usize,
    restarts: Vec<usize>,
    run_idx: usize,
    run_pos: usize,
    run: RunCursor,
    cur: Option<DecEntry>,
    cur_next: usize,
    key: Vec<u8>,
    at: Ghost<Placed>,
}

impl BlockCursor {
    pub closed spec fn how(self) -> Codec {
        self.codec
    }

    /// The bytes of the entries.
    pub closed spec fn ents(self) -> Seq<u8> {
        self.raw@.take(self.entries_len as int)
    }

    pub closed spec fn block(self) -> Seq<u8> {
        self.raw@
    }

    pub closed spec fn anchors(self) -> Seq<usize> {
        self.restarts@
    }

    /// The entry that it stands on.
    pub closed spec fn entry(self) -> Option<Placed> {
        if self.cur is Some { Some(self.at@) } else { None }
    }

    /// Where it stands, or last stood: the run, and the number in it.
    pub closed spec fn spot(self) -> (int, int) {
        if self.codec.delta { (self.run_idx as int, self.run_pos as int) } else { (0, self.pos as int) }
    }

    pub closed spec fn times_overflowed(self) -> u64 {
        self.run.times_overflowed()
    }

    /// Whether the entry is the one of its run that it should be, where the
    /// run can be read.
    spec fn in_place(self) -> bool {
        &&& self.run_idx < self.restarts@.len()
        &&& self.run_pos <= self.at@.off
        &&& run_at(self.codec, self.ents(), self.restarts@, self.run_idx as int) matches Ok(rs) ==> self.run_pos < rs.len() && rs[self.run_pos as int]
            == self.at@
    }

    /// Whether it has come to this entry and spot, to none, or to this fault.
    pub open spec fn came_to(self, was: BlockCursor, found: Option<Result<(Placed, (int, int)), Fault>>, r: Result<bool, OndaError>) -> bool {
        match found {
            None => r == Ok::<bool, OndaError>(false) && self.entry() is None && self.spot() == was.spot(),
            Some(Ok(at)) => r == Ok::<bool, OndaError>(true) && self.entry() == Some(at.0) && self.spot() == at.1,
            Some(Err(f)) => r is Err && crate::format::reports(r->Err_0, f) && self.entry() is None,
        }
    }

    spec fn run_inv(self) -> bool {
        self.run.held() matches Some(r) ==> {
            &&& r < self.restarts@.len()
            &&& crate::sst_run::run_of(self.codec, self.ents(), self.restarts@[r as int] as int, run_end(self.entries_len as int, self.restarts@, r as int)) matches Ok(
                rs,
            ) && self.run.holds(rs) && self.run.count() == rs.len() && rs.len() > 0
        }
    }

    pub closed spec fn inv(self) -> bool {
        &&& self.entries_len <= self.raw@.len()
        &&& self.codec.delta ==> restarts_fit(self.entries_len as int, self.restarts@)
        &&& !self.codec.delta ==> self.run.held() is None && index_fits(self.codec, self.ents(), self.offsets@)
        &&& self.codec.delta ==> self.run_inv()
        &&& self.cur matches Some(d) ==> {
            let p = self.at@;
            &&& crate::sst_entry::locates(d, self.ents(), p.fields, p.next)
            &&& self.cur_next == p.next
            &&& 0 <= p.off < p.next <= self.entries_len
            &&& self.codec.delta ==> self.key@ == p.key && self.in_place()
            &&& !self.codec.delta ==> d.key_shared == 0 && p.key == p.fields.key && self.pos < self.offsets@.len() && self.offsets@[self.pos as int] == p.off
                && crate::sst_block::parse_at(self.codec, self.ents(), p.off, Seq::empty()) == Ok::<Placed, Fault>(p)
        }
    }

    /// Whether it stands on entry `j` of a block that can be read.
    pub closed spec fn at_entry(self, j: int) -> bool {
        &&& crate::sst_block::entries_of(self.codec, self.ents()) matches Ok(es) && 0 <= j < es.len() && self.entry() == Some(es[j]) && (self.codec.delta
            ==> self.in_run(es, j))
    }

    spec fn in_run(self, es: Seq<Placed>, j: int) -> bool {
        &&& self.run_idx < self.restarts@.len()
        &&& 0 <= j - self.run_pos < es.len()
        &&& es[j - self.run_pos].off == self.restarts@[self.run_idx as int]
        &&& es[j].off < run_end(self.entries_len as int, self.restarts@, self.run_idx as int)
    }

    /// What stands behind entry `j`.
    spec fn follows(self, j: int) -> bool {
        let es = crate::sst_block::entries_of(self.codec, self.ents())->Ok_0;
        &&& j + 1 < es.len() ==> es[j].next < self.ents().len() && crate::sst_block::parse_at(self.codec, self.ents(), es[j].next, es[j].key) == Ok::<
            Placed,
            Fault,
        >(es[j + 1])
        &&& j + 1 == es.len() ==> es[j].next >= self.ents().len()
    }

    /// On no block.
    pub fn new(codec: Codec) -> (r: BlockCursor)
        ensures
            r.inv(),
            r.how() == codec,
            r.entry() is None,
            r.block().len() == 0,
            r.spot() == (0int, 0int),
            r.times_overflowed() == 0,
    {
        BlockCursor {
            codec,
            raw: Vec::new(),
            entries_len: 0,
            offsets: Vec::new(),
            pos: 0,
            restarts: Vec::new(),
            run_idx: 0,
            run_pos: 0,
            run: RunCursor::new(),
            cur: None,
            cur_next: 0,
            key: Vec::new(),
            at: Ghost(arbitrary()),
        }
    }

    /// How often the keys of a run were too many bytes to keep.
    pub fn run_arena_overflows(&self) -> (r: u64)
        ensures
            r == self.times_overflowed(),
    {
        self.run.overflows()
    }

    /// Go to a block, on none of its entries yet. A block without a valid
    /// trailer is corrupt.
    pub fn load(&mut self, raw: Vec<u8>) -> (r: Result<(), OndaError>)
        requires
            old(self).inv(),
        ensures
            final(self).inv(),
            final(self).how() == old(self).how(),
            final(self).entry() is None,
            final(self).spot() == old(self).spot(),
            final(self).times_overflowed() == old(self).times_overflowed(),
            match crate::sst_block::split_parts(raw@, old(self).how().delta) {
                None => r is Err && r->Err_0 is Corruption,
                Some((e, s)) => {
                    &&& r is Ok
                    &&& final(self).block() == raw@
                    &&& final(self).ents() == e
                    &&& old(self).how().delta ==> numbers(final(self).anchors()) == restart_numbers(s)
                },
            },
    {
        self.run.reset();
        self.offsets.clear();
        self.restarts.clear();
        self.cur = None;
        self.entries_len = 0;
        let mut numbers_read: Vec<usize> = Vec::new();
        let n: usize;
        {
            let (entries, restarts) = split_block(raw.as_slice(), self.codec.delta)?;
            n = entries.len();
            if self.codec.delta {
                let len = restarts.len();
                let count = len / 4;
                let mut i: usize = 0;
                while i < count
                    invariant
                        i <= count,
                        len == restarts@.len(),
                        count == len / 4,
                        numbers_read@.len() == i,
                        forall|k: int| 0 <= k < i ==> (#[trigger] numbers_read@[k]) == crate::sst_block::restart_at(restarts@, k),
                    decreases count - i,
                {
                    let off = read_u32_at(restarts, i * 4);
                    numbers_read.push(off as usize);
                    i += 1;
                }
                proof {
                    let s = restarts@;
                    assert(numbers(numbers_read@) =~= restart_numbers(s));
                    assert(crate::sst_block::restarts_valid(n as int, s));
                    assert(restarts_fit(n as int, numbers_read@)) by {
                        assert forall|i: int| 0 <= i < numbers_read@.len() implies (#[trigger] numbers_read@[i]) < n by {
                            assert(crate::sst_block::restart_at(s, i) < n);
                        }
                        assert forall|i: int, j: int| 0 <= i < j < numbers_read@.len() implies (#[trigger] numbers_read@[i])
                            < (#[trigger] numbers_read@[j]) by {
                            assert(crate::sst_block::restart_at(s, i) < crate::sst_block::restart_at(s, j));
                        }
                    }
                }
            }
        }
        self.restarts = numbers_read;
        self.entries_len = n;
        self.raw = raw;
        Ok(())
    }

    /// Read the entry at `off`, behind one with the key `self.key`.
    fn step(&mut self, off: usize) -> (r: Result<(), OndaError>)
        requires
            old(self).entries_len <= old(self).raw@.len(),
        ensures
            *final(self) == (BlockCursor {
                cur: final(self).cur,
                cur_next: final(self).cur_next,
                key: final(self).key,
                at: final(self).at,
                ..*old(self)
            }),
            !old(self).codec.delta ==> final(self).key == old(self).key,
            match crate::sst_block::parse_at(old(self).codec, old(self).ents(), off as int, old(self).key@) {
                Ok(p) => {
                    &&& r is Ok
                    &&& final(self).entry() == Some(p)
                    &&& crate::sst_entry::locates(final(self).cur->0, old(self).ents(), p.fields, p.next)
                    &&& final(self).cur_next == p.next
                    &&& off == p.off < p.next <= old(self).entries_len
                    &&& old(self).codec.delta ==> final(self).key@ == p.key
                    &&& !old(self).codec.delta ==> (final(self).cur->0).key_shared == 0 && p.key == p.fields.key
                },
                Err(f) => r is Err && crate::format::reports(r->Err_0, f) && final(self).cur is None && final(self).key@ == old(self).key@,
            },
    {
        let ghost p = crate::sst_block::parse_at(self.codec, self.ents(), off as int, self.key@)->Ok_0;
        let n = self.entries_len;
        let entries = &self.raw.as_slice()[0..n];
        assert(entries@ =~= self.ents());
        self.cur = None;
        if self.codec.delta {
            let (d, next) = decode_step(self.codec, entries, off, &mut self.key)?;
            self.cur = Some(d);
            self.cur_next = next;
        } else {
            let (d, next) = decode_entry(entries, self.codec.layout, off)?;
            self.cur = Some(d);
            self.cur_next = next;
        }
        self.at = Ghost(p);
        Ok(())
    }

    /// Go to the first entry.
    pub fn to_first(&mut self) -> (r: Result<(), OndaError>)
        requires
            old(self).inv(),
        ensures
            final(self).inv(),
            final(self).same_block(*old(self)),
            match crate::sst_block::parse_at(old(self).how(), old(self).ents(), 0, Seq::empty()) {
                Ok(p) => r is Ok && final(self).entry() == Some(p) && final(self).spot() == (0int, 0int),
                Err(f) => r is Err && crate::format::reports(r->Err_0, f) && final(self).entry() is None,
            },
            sound(old(self).how(), old(self).ents(), old(self).anchors()) && old(self).ents().len() > 0 ==> r is Ok && final(self).at_entry(0),
    {
        self.offsets.clear();
        self.key.clear();
        assert(self.key@ =~= Seq::empty());
        self.step(0)?;
        self.offsets.push(0);
        self.pos = 0;
        self.run_idx = 0;
        self.run_pos = 0;
        proof {
            if !self.codec.delta {
                assert(indexed(self.codec, self.ents(), self.offsets@, 0));
            } else {
                if let Ok(rs) = run_at(self.codec, self.ents(), self.restarts@, 0) {
                    lemma_run_spans(self.codec, self.ents(), self.restarts@, 0);
                    lemma_walk_to_at(self.codec, self.ents(), 0, Seq::empty(), run_end(self.entries_len as int, self.restarts@, 0), 0);
                }
            }
            if sound(self.codec, self.ents(), self.restarts@) {
                crate::sst_block::lemma_walk_at(self.codec, self.ents(), 0, Seq::empty(), 0);
            }
        }
        Ok(())
    }

    /// Whether it holds the same bytes.
    pub closed spec fn on_block_of(self, other: BlockCursor) -> bool {
        &&& self.codec == other.codec
        &&& self.raw@ == other.raw@
        &&& self.entries_len == other.entries_len
        &&& self.restarts@ == other.restarts@
    }

    /// Whether it is on the same block.
    pub open spec fn same_block(self, other: BlockCursor) -> bool {
        &&& self.on_block_of(other)
        &&& self.how() == other.how()
        &&& self.block() == other.block()
        &&& self.ents() == other.ents()
        &&& self.anchors() == other.anchors()
    }

    /// Being on the same block goes on from cursor to cursor.
    pub proof fn lemma_same_block(self, b: BlockCursor, c: BlockCursor)
        ensures
            self.same_block(self),
            self.same_block(b) && b.same_block(c) ==> self.same_block(c),
    {
    }

    /// A block whose keys are stored in part has anchors where it has entries.
    pub proof fn lemma_bare(self)
        requires
            self.inv(),
            self.how().delta,
            crate::sst_block::entries_of(self.how(), self.ents()) is Ok,
        ensures
            self.anchors().len() == 0 <==> crate::sst_block::entries_of(self.how(), self.ents())->Ok_0.len() == 0,
    {
    }

    pub proof fn lemma_at_entry(self, j: int)
        requires
            self.at_entry(j),
        ensures
            crate::sst_block::entries_of(self.how(), self.ents()) matches Ok(es) && 0 <= j < es.len() && self.entry() == Some(es[j]),
    {
    }

    /// Go to the next entry of a block whose keys are stored in part.
    fn next_delta(&mut self) -> (r: Result<(), OndaError>)
        requires
            old(self).inv(),
            old(self).entry() is Some,
            old(self).codec.delta,
            old(self).cur_next < old(self).entries_len,
        ensures
            final(self).inv(),
            final(self).same_block(*old(self)),
            match crate::sst_block::parse_at(old(self).codec, old(self).ents(), old(self).cur_next as int, old(self).at@.key) {
                Ok(q) => r is Ok && final(self).entry() == Some(q) && final(self).spot() == spot_behind(
                    old(self).codec,
                    old(self).restarts@,
                    old(self).spot(),
                    old(self).cur_next as int,
                ),
                Err(f) => r is Err && crate::format::reports(r->Err_0, f) && final(self).entry() is None,
            },
    {
        let off = self.cur_next;
        let ghost was = *self;
        let opens = self.run_idx < self.restarts.len() - 1 && self.restarts[self.run_idx + 1] == off;
        self.step(off)?;
        if opens {
            self.run_idx = self.run_idx + 1;
            self.run_pos = 0;
        } else {
            self.run_pos = self.run_pos + 1;
        }
        proof {
            lemma_run_goes_on(was.codec, was.ents(), was.restarts@, was.run_idx as int, was.run_pos as int, was.at@, self.at@);
        }
        Ok(())
    }

    /// Go to the next entry of a block whose keys are stored whole.
    fn next_whole(&mut self) -> (r: Result<(), OndaError>)
        requires
            old(self).inv(),
            old(self).entry() is Some,
            !old(self).codec.delta,
            old(self).cur_next < old(self).entries_len,
        ensures
            final(self).inv(),
            final(self).same_block(*old(self)),
            match crate::sst_block::parse_at(old(self).codec, old(self).ents(), old(self).cur_next as int, old(self).at@.key) {
                Ok(q) => r is Ok && final(self).entry() == Some(q) && final(self).pos == old(self).pos + 1,
                Err(f) => r is Err && crate::format::reports(r->Err_0, f) && final(self).entry() is None,
            },
    {
        let off = self.cur_next;
        let count = self.offsets.len();
        let ghost c = self.codec;
        let ghost raw = self.ents();
        let ghost o0 = self.offsets@;
        proof {
            assert(indexed(c, raw, o0, self.pos as int));
            lemma_whole_keys(c, raw, off as int, self.key@, self.at@.key);
            lemma_whole_keys(c, raw, off as int, self.key@, Seq::empty());
        }
        self.step(off)?;
        if self.pos + 1 >= count {
            self.offsets.push(off);
            proof {
                assert forall|k: int| 0 <= k < self.offsets@.len() implies #[trigger] indexed(c, raw, self.offsets@, k) by {
                    if k < o0.len() {
                        assert(indexed(c, raw, o0, k));
                    }
                }
            }
        }
        self.pos = self.pos + 1;
        Ok(())
    }

    /// Go to the next entry; `false` where there is none, which leaves it where
    /// it is.
    pub fn next(&mut self) -> (r: Result<bool, OndaError>)
        requires
            old(self).inv(),
            old(self).entry() is Some,
        ensures
            final(self).inv(),
            final(self).same_block(*old(self)),
            ({
                let p = old(self).entry()->0;
                if p.next >= old(self).ents().len() {
                    r is Ok && !r->Ok_0 && final(self).entry() == old(self).entry() && final(self).spot() == old(self).spot()
                } else {
                    match crate::sst_block::parse_at(old(self).how(), old(self).ents(), p.next, p.key) {
                        Ok(q) => r is Ok && r->Ok_0 && final(self).entry() == Some(q) && final(self).spot() == spot_behind(
                            old(self).how(),
                            old(self).anchors(),
                            old(self).spot(),
                            p.next,
                        ),
                        Err(f) => r is Err && crate::format::reports(r->Err_0, f) && final(self).entry() is None,
                    }
                }
            }),
            forall|j: int| #[trigger]
                old(self).at_entry(j) ==> {
                    let es = crate::sst_block::entries_of(old(self).how(), old(self).ents())->Ok_0;
                    &&& j + 1 < es.len() ==> r is Ok && r->Ok_0 && (sound(old(self).how(), old(self).ents(), old(self).anchors())
                        ==> final(self).at_entry(j + 1))
                    &&& j + 1 == es.len() ==> r is Ok && !r->Ok_0 && final(self).at_entry(j)
                },
    {
        let ghost was = *self;
        proof {
            assert forall|j: int| #[trigger] self.at_entry(j) implies self.follows(j) by {
                let es = crate::sst_block::entries_of(self.codec, self.ents())->Ok_0;
                crate::sst_block::lemma_walk_at(self.codec, self.ents(), 0, Seq::empty(), j);
                if j + 1 < es.len() {
                    crate::sst_block::lemma_walk_at(self.codec, self.ents(), 0, Seq::empty(), j + 1);
                }
            }
        }
        if self.cur_next >= self.entries_len {
            return Ok(false);
        }
        if self.codec.delta {
            self.next_delta()?;
        } else {
            self.next_whole()?;
        }
        proof {
            assert forall|j: int| #[trigger] was.at_entry(j) && sound(was.codec, was.ents(), was.restarts@) implies self.at_entry(j + 1) by {
                Self::lemma_next_lands(was, *self, j);
            }
        }
        Ok(true)
    }
}

impl BlockCursor {
    /// Find every entry of a block whose keys are stored whole.
    fn index_all(&mut self) -> (r: Result<(), OndaError>)
        requires
            old(self).inv(),
            !old(self).codec.delta,
        ensures
            final(self).inv(),
            final(self).same_block(*old(self)),
            final(self).entry() is None,
            final(self).pos == old(self).pos,
            match crate::sst_block::entries_of(old(self).codec, old(self).ents()) {
                Ok(es) => r is Ok && final(self).offsets@.len() == es.len() && forall|k: int|
                    0 <= k < es.len() ==> (#[trigger] final(self).offsets@[k]) == es[k].off,
                Err(f) => r is Err && crate::format::reports(r->Err_0, f),
            },
    {
        self.cur = None;
        self.offsets.clear();
        let ghost c = self.codec;
        let ghost raw = self.ents();
        let ghost whole = crate::sst_block::entries_of(c, raw);
        let ghost was = *self;
        assert(was.pos == old(self).pos);
        let mut scratch: Vec<u8> = Vec::new();
        let n = self.entries_len;
        let mut off: usize = 0;
        let mut found: Vec<usize> = Vec::new();
        let ghost mut es: Seq<Placed> = Seq::empty();
        assert(scratch@ =~= Seq::empty());
        while off < n
            invariant
                *self == was,
                was.inv(),
                was.same_block(*old(self)),
                was.pos == old(self).pos,
                was.cur is None,
                c == was.codec,
                !c.delta,
                raw == was.ents(),
                n == was.entries_len,
                off <= n,
                whole == crate::sst_block::entries_of(c, raw),
                whole == (match crate::sst_block::walk(c, raw, off as int, scratch@) {
                    Ok(more) => Ok(es + more),
                    Err(f) => Err(f),
                }),
                found@.len() == es.len(),
                es.len() == 0 <==> off == 0,
                es.len() > 0 ==> es.last().next == off,
                forall|k: int| 0 <= k < es.len() ==> (#[trigger] found@[k]) == es[k].off,
                index_fits(c, raw, found@),
                forall|k: int| 0 <= k < es.len() ==> crate::sst_block::parse_at(c, raw, (#[trigger] es[k]).off, Seq::empty()) == Ok::<Placed, Fault>(es[k]),
            decreases n - off,
        {
            let entries = &self.raw.as_slice()[0..n];
            assert(entries@ =~= raw);
            let ghost prev = scratch@;
            let ghost f0 = found@;
            let (_, next) = decode_step(self.codec, entries, off, &mut scratch)?;
            let ghost p = crate::sst_block::parse_at(c, raw, off as int, prev)->Ok_0;
            found.push(off);
            proof {
                lemma_whole_keys(c, raw, off as int, prev, Seq::empty());
                let rest = crate::sst_block::walk(c, raw, p.next, p.key);
                if let Ok(more) = rest {
                    assert(es + (seq![p] + more) =~= es.push(p) + more);
                }
                assert forall|k: int| 0 <= k < found@.len() implies #[trigger] indexed(c, raw, found@, k) by {
                    if k < es.len() {
                        assert(indexed(c, raw, f0, k));
                        assert(found@[k] == es[k].off);
                    }
                }
                es = es.push(p);
            }
            off = next;
        }
        proof {
            assert(es + Seq::<Placed>::empty() =~= es);
        }
        self.offsets = found;
        Ok(())
    }

    /// Go to entry `i` of the index.
    fn to_indexed(&mut self, i: usize)
        requires
            old(self).inv(),
            !old(self).codec.delta,
            i < old(self).offsets@.len(),
        ensures
            final(self).inv(),
            final(self).same_block(*old(self)),
            final(self).offsets@ == old(self).offsets@,
            final(self).pos == i,
            crate::sst_block::parse_at(old(self).codec, old(self).ents(), old(self).offsets@[i as int] as int, Seq::empty()) == Ok::<Placed, Fault>(
                final(self).entry()->0,
            ),
            final(self).entry() is Some,
    {
        let off = self.offsets[i];
        proof {
            assert(indexed(self.codec, self.ents(), self.offsets@, i as int));
            lemma_whole_keys(self.codec, self.ents(), off as int, self.key@, Seq::empty());
        }
        let _ = self.step(off);
        self.pos = i;
    }
}

/// Where entry `i` stands, or where the entries end.
pub open spec fn offset_of(raw: Seq<u8>, es: Seq<Placed>, i: int) -> int {
    if 0 <= i < es.len() { es[i].off } else { raw.len() as int }
}

/// The entries from one to another are what is read between them.
proof fn lemma_walk_between(c: Codec, raw: Seq<u8>, a: int, b: int)
    requires
        crate::sst_block::entries_of(c, raw) matches Ok(es) && 0 <= a <= b <= es.len(),
    ensures
        ({
            let es = crate::sst_block::entries_of(c, raw)->Ok_0;
            crate::sst_run::walk_to(c, raw, offset_of(raw, es, a), key_before(es, a), offset_of(raw, es, b)) == Ok::<Seq<Placed>, Fault>(
                es.subrange(a, b),
            )
        }),
    decreases b - a,
{
    let es = crate::sst_block::entries_of(c, raw)->Ok_0;
    if a == b {
        assert(es.subrange(a, b) =~= Seq::empty());
    } else {
        crate::sst_block::lemma_walk_at(c, raw, 0, Seq::empty(), a);
        lemma_offsets_ascend(c, raw, a, a);
        if a + 1 < es.len() {
            crate::sst_block::lemma_walk_at(c, raw, 0, Seq::empty(), a + 1);
        }
        if b < es.len() {
            lemma_offsets_ascend(c, raw, a, b);
        }
        lemma_walk_between(c, raw, a + 1, b);
        assert(seq![es[a]] + es.subrange(a + 1, b) =~= es.subrange(a, b));
        assert(offset_of(raw, es, a + 1) == es[a].next);
    }
}

/// Whether the entries from `a` to `b` are those of run `r`.
pub open spec fn run_between(raw: Seq<u8>, es: Seq<Placed>, restarts: Seq<usize>, r: int, a: int, b: int) -> bool {
    &&& 0 <= a < b <= es.len()
    &&& es[a].off == restarts[r]
    &&& offset_of(raw, es, b) == run_end(raw.len() as int, restarts, r)
}

/// A run of a block that can be read is a stretch of its entries.
proof fn lemma_run_is_a_stretch(c: Codec, raw: Seq<u8>, restarts: Seq<usize>, r: int) -> (ab: (int, int))
    requires
        c.delta,
        sound(c, raw, restarts),
        restarts_fit(raw.len() as int, restarts),
        0 <= r < restarts.len(),
    ensures
        ({
            let es = crate::sst_block::entries_of(c, raw)->Ok_0;
            &&& run_between(raw, es, restarts, r, ab.0, ab.1)
            &&& crate::sst_run::run_of(c, raw, restarts[r] as int, run_end(raw.len() as int, restarts, r)) == Ok::<Seq<Placed>, Fault>(
                es.subrange(ab.0, ab.1),
            )
            &&& crate::sst_block::parse_anchor_at(c, raw, restarts[r] as int) == Ok::<crate::place::Place, Fault>(es[ab.0].place())
        }),
{
    let es = crate::sst_block::entries_of(c, raw)->Ok_0;
    let s = restarts[r] as int;
    assert(crate::sst_block::has_anchor(c, es, s));
    let a = choose|i: int| crate::sst_block::is_anchor(c, es, i, s);
    let b = if r + 1 < restarts.len() {
        let e = restarts[r + 1] as int;
        assert(crate::sst_block::has_anchor(c, es, e));
        let b = choose|i: int| crate::sst_block::is_anchor(c, es, i, e);
        if b <= a {
            lemma_offsets_ascend(c, raw, b, a);
        }
        b
    } else {
        es.len() as int
    };
    lemma_walk_between(c, raw, a, b);
    crate::sst_block::lemma_walk_at(c, raw, 0, Seq::empty(), a);
    crate::sst_block::lemma_anchor_stands_alone(c, raw, s, key_before(es, a));
    (a, b)
}

/// What was read up to an end stands where it was read from.
proof fn lemma_walk_to_at(c: Codec, raw: Seq<u8>, off: int, prev: Seq<u8>, end: int, i: int)
    requires
        crate::sst_run::walk_to(c, raw, off, prev, end) matches Ok(rs) && 0 <= i < rs.len(),
    ensures
        ({
            let rs = crate::sst_run::walk_to(c, raw, off, prev, end)->Ok_0;
            &&& rs[i].off == (if i == 0 { off } else { rs[i - 1].next })
            &&& off <= rs[i].off < rs[i].next <= end
            &&& crate::sst_block::parse_at(c, raw, rs[i].off, if i == 0 { prev } else { rs[i - 1].key }) == Ok::<Placed, Fault>(rs[i])
        }),
    decreases i,
{
    let rs = crate::sst_run::walk_to(c, raw, off, prev, end)->Ok_0;
    let more = crate::sst_run::walk_to(c, raw, rs[0].next, rs[0].key, end)->Ok_0;
    assert(rs =~= seq![rs[0]] + more);
    if i > 0 {
        lemma_walk_to_at(c, raw, rs[0].next, rs[0].key, end, i - 1);
        assert(more[i - 1] == rs[i]);
        if i >= 2 {
            assert(more[i - 2] == rs[i - 1]);
        }
    } else if rs[0].next > end {
        assert(crate::sst_run::walk_to(c, raw, rs[0].next, rs[0].key, end) is Err);
    }
}

/// Entry `i` of a run has at least `i` bytes before it.
proof fn lemma_walk_to_off(c: Codec, raw: Seq<u8>, off: int, prev: Seq<u8>, end: int, i: int)
    requires
        crate::sst_run::walk_to(c, raw, off, prev, end) matches Ok(rs) && 0 <= i < rs.len(),
    ensures
        crate::sst_run::walk_to(c, raw, off, prev, end)->Ok_0[i].off >= off + i,
    decreases i,
{
    lemma_walk_to_at(c, raw, off, prev, end, i);
    if i > 0 {
        lemma_walk_to_at(c, raw, off, prev, end, i - 1);
        lemma_walk_to_off(c, raw, off, prev, end, i - 1);
    }
}

/// What was read up to an end ends there.
proof fn lemma_walk_to_end(c: Codec, raw: Seq<u8>, off: int, prev: Seq<u8>, end: int)
    requires
        crate::sst_run::walk_to(c, raw, off, prev, end) matches Ok(rs) && rs.len() > 0,
    ensures
        crate::sst_run::walk_to(c, raw, off, prev, end)->Ok_0.last().next == end,
    decreases (if off < end { end - off } else { 0 }),
{
    let rs = crate::sst_run::walk_to(c, raw, off, prev, end)->Ok_0;
    let more = crate::sst_run::walk_to(c, raw, rs[0].next, rs[0].key, end)->Ok_0;
    assert(rs =~= seq![rs[0]] + more);
    if more.len() > 0 {
        lemma_walk_to_end(c, raw, rs[0].next, rs[0].key, end);
        assert(rs.last() == more.last());
    } else {
        assert(rs.last() == rs[0]);
    }
}

/// A run that can be read is what is read from its anchor to its end.
proof fn lemma_run_spans(c: Codec, raw: Seq<u8>, restarts: Seq<usize>, r: int)
    requires
        c.delta,
        restarts_fit(raw.len() as int, restarts),
        0 <= r < restarts.len(),
        run_at(c, raw, restarts, r) is Ok,
    ensures
        restarts[r] < run_end(raw.len() as int, restarts, r) <= raw.len(),
        crate::sst_run::walk_to(c, raw, restarts[r] as int, Seq::empty(), run_end(raw.len() as int, restarts, r)) == run_at(c, raw, restarts, r),
        run_at(c, raw, restarts, r)->Ok_0.len() > 0,
        crate::sst_entry::parse_anchor(raw.skip(restarts[r] as int)) is Ok,
{
    if r + 1 < restarts.len() {
        assert(restarts[r] < restarts[r + 1]);
        assert(restarts[r + 1] < raw.len());
    } else {
        assert(restarts[r] < raw.len());
    }
}

/// The entry behind one of a run is the next of that run, or the first of the
/// next run, where that run can be read.
proof fn lemma_run_goes_on(c: Codec, raw: Seq<u8>, restarts: Seq<usize>, r: int, i: int, p: Placed, q: Placed)
    requires
        c.delta,
        restarts_fit(raw.len() as int, restarts),
        0 <= r < restarts.len(),
        0 <= i <= p.off,
        p.off < p.next < raw.len(),
        run_at(c, raw, restarts, r) matches Ok(rs) ==> i < rs.len() && rs[i] == p,
        crate::sst_block::parse_at(c, raw, p.next, p.key) == Ok::<Placed, Fault>(q),
    ensures
        ({
            let s = spot_behind(c, restarts, (r, i), p.next);
            &&& 0 <= s.0 < restarts.len()
            &&& 0 <= s.1 <= q.off
            &&& run_at(c, raw, restarts, s.0) matches Ok(rs) ==> s.1 < rs.len() && rs[s.1] == q
        }),
{
    let opens = r + 1 < restarts.len() && restarts[r + 1] == p.next;
    if opens {
        if run_at(c, raw, restarts, r + 1) is Ok {
            let start = restarts[r + 1] as int;
            lemma_run_spans(c, raw, restarts, r + 1);
            lemma_walk_to_at(c, raw, start, Seq::empty(), run_end(raw.len() as int, restarts, r + 1), 0);
            crate::sst_block::lemma_anchor_stands_alone(c, raw, start, p.key);
        }
    } else if run_at(c, raw, restarts, r) is Ok {
        let rs = run_at(c, raw, restarts, r)->Ok_0;
        let start = restarts[r] as int;
        let end = run_end(raw.len() as int, restarts, r);
        lemma_run_spans(c, raw, restarts, r);
        lemma_walk_to_end(c, raw, start, Seq::empty(), end);
        if i + 1 < rs.len() {
            lemma_walk_to_at(c, raw, start, Seq::empty(), end, i + 1);
        } else {
            assert(rs.last() == p);
        }
    }
}

/// In ascending entries the neighbours decide where a target belongs.
proof fn lemma_neighbours<C: Comparator>(ord: C, es: Seq<Placed>, t: crate::place::Place, n: int)
    requires
        crate::sst_block::ascending(ord, es),
        0 <= n <= es.len(),
        n > 0 ==> crate::place::place_lt(ord, es[n - 1].place(), t),
        n < es.len() ==> !crate::place::place_lt(ord, es[n].place(), t),
    ensures
        crate::sst_block::first_not_before(ord, es, t, n),
{
    crate::place::lemma_place_order(ord, true);
    assert forall|k: int| 0 <= k < n implies crate::place::place_lt(ord, (#[trigger] es[k]).place(), t) by {
        if k < n - 1 {
            assert(crate::place::place_lt(ord, es[k].place(), es[n - 1].place()));
            assert(crate::place::leads(ord, true, es[k].place(), es[n - 1].place()));
            assert(crate::place::leads(ord, true, es[n - 1].place(), t));
            assert(crate::place::leads(ord, true, es[k].place(), t));
        }
    }
}

impl BlockCursor {
    /// The entries of the run that is held.
    spec fn run_entries(self) -> Seq<Placed> {
        let r = self.run.held()->0 as int;
        crate::sst_run::run_of(self.codec, self.ents(), self.restarts@[r] as int, run_end(self.entries_len as int, self.restarts@, r))->Ok_0
    }

    /// Read run `r`, unless it is held already.
    fn ensure_run(&mut self, r: usize) -> (res: Result<(), OndaError>)
        requires
            old(self).inv(),
            old(self).codec.delta,
            r < old(self).restarts@.len(),
        ensures
            final(self).inv(),
            *final(self) == (BlockCursor { run: final(self).run, ..*old(self) }),
            match crate::sst_run::run_of(
                old(self).codec,
                old(self).ents(),
                old(self).restarts@[r as int] as int,
                run_end(old(self).entries_len as int, old(self).restarts@, r as int),
            ) {
                Ok(rs) => res is Ok && final(self).run.held() == Some(r) && final(self).run_entries() == rs && rs.len() > 0,
                Err(f) => res is Err && crate::format::reports(res->Err_0, f),
            },
    {
        let ghost raw = self.ents();
        if self.run.is_at(r) {
            return Ok(());
        }
        let start = self.restarts[r];
        let n = self.entries_len;
        let count = self.restarts.len();
        let end = if r + 1 < count { self.restarts[r + 1] } else { n };
        let twice = if n > usize::MAX / 2 { usize::MAX } else { 2 * n };
        let bound = if twice > MIN_RUN_ARENA_BYTES { twice } else { MIN_RUN_ARENA_BYTES };
        let entries = &self.raw.as_slice()[0..n];
        assert(entries@ =~= raw);
        proof {
            if r + 1 < self.restarts@.len() {
                assert(self.restarts@[r as int] < self.restarts@[r + 1]);
                assert(self.restarts@[r + 1] < n);
            }
        }
        self.run.materialize(r, self.codec, entries, start, end, bound)?;
        proof {
            let rs = crate::sst_run::run_of(self.codec, raw, start as int, end as int)->Ok_0;
            assert(start < end);
            assert(rs == crate::sst_run::walk_to(self.codec, raw, start as int, Seq::empty(), end as int)->Ok_0);
        }
        Ok(())
    }

    /// Go to entry `i` of the run that is held.
    fn position_in_run(&mut self, r: usize, i: usize)
        requires
            old(self).inv(),
            old(self).codec.delta,
            old(self).run.held() == Some(r),
            i < old(self).run_entries().len(),
        ensures
            final(self).inv(),
            final(self).same_block(*old(self)),
            final(self).run == old(self).run,
            final(self).entry() == Some(old(self).run_entries()[i as int]),
            final(self).run_idx == r,
            final(self).run_pos == i,
    {
        let ghost c = self.codec;
        let ghost raw = self.ents();
        let ghost rs = self.run_entries();
        let ghost start = self.restarts@[r as int] as int;
        let ghost end = run_end(self.entries_len as int, self.restarts@, r as int);
        let ghost was = *self;
        proof {
            assert(self.restarts@[r as int] < self.entries_len);
            if r + 1 < self.restarts@.len() {
                assert(self.restarts@[r as int] < self.restarts@[r + 1]);
                assert(self.restarts@[r + 1] < self.entries_len);
            }
            assert(self.run.holds(rs) && self.run.count() == rs.len());
            assert(rs == crate::sst_run::walk_to(c, raw, start, Seq::empty(), end)->Ok_0);
            lemma_walk_to_at(c, raw, start, Seq::empty(), end, i as int);
            lemma_walk_to_off(c, raw, start, Seq::empty(), end, i as int);
            assert(run_at(c, raw, self.restarts@, r as int) == Ok::<Seq<Placed>, Fault>(rs));
        }
        if self.run.overflowed() {
            self.key.clear();
            assert(self.key@ =~= Seq::empty());
            let mut off = self.run.start(0);
            proof {
                lemma_walk_to_at(c, raw, start, Seq::empty(), end, 0);
            }
            let total = self.run.len();
            let mut k: usize = 0;
            while k <= i
                invariant
                    total == rs.len(),
                    k <= i + 1,
                    i < rs.len(),
                    was.inv(),
                    was.codec == c,
                    c.delta,
                    was.ents() == raw,
                    crate::sst_run::walk_to(c, raw, start, Seq::empty(), end) == Ok::<Seq<Placed>, Fault>(rs),
                    end <= was.entries_len,
                    *self == (BlockCursor { cur: self.cur, cur_next: self.cur_next, key: self.key, at: self.at, ..was }),
                    k <= rs.len(),
                    self.key@ == key_before(rs, k as int),
                    k < rs.len() ==> off == rs[k as int].off,
                    k > 0 ==> self.entry() == Some(rs[k - 1]) && crate::sst_entry::locates(
                        self.cur->0,
                        raw,
                        rs[k - 1].fields,
                        rs[k - 1].next,
                    ) && self.cur_next == rs[k - 1].next && 0 <= rs[k - 1].off < rs[k - 1].next <= was.entries_len && self.key@ == rs[k - 1].key,
                    start >= 0,
                decreases i + 1 - k,
            {
                proof {
                    lemma_walk_to_at(c, raw, start, Seq::empty(), end, k as int);
                    if k + 1 < rs.len() {
                        lemma_walk_to_at(c, raw, start, Seq::empty(), end, k + 1);
                    }
                }
                let _ = self.step(off);
                off = self.cur_next;
                k += 1;
            }
        } else {
            let off = self.run.start(i);
            let n = self.entries_len;
            self.key.clear();
            let k = self.run.key(i);
            append_slice(&mut self.key, k);
            assert(self.key@ =~= rs[i as int].key);
            let entries = &self.raw.as_slice()[0..n];
            assert(entries@ =~= raw);
            match decode_delta_header(entries, off) {
                Ok((d, next)) => {
                    self.cur = Some(d);
                    self.cur_next = next;
                    self.at = Ghost(rs[i as int]);
                },
                Err(_) => {
                    assert(false);
                },
            }
        }
        self.run_idx = r;
        self.run_pos = i;
    }
}

impl BlockCursor {
    /// The first entry of the run that is held that is not before
    /// `(user_key, seq)`.
    fn find_in_run<C: Comparator>(&self, ord: &C, r: usize, user_key: &[u8], seq: u64) -> (res: Option<usize>)
        requires
            self.inv(),
            self.codec.delta,
            self.run.held() == Some(r),
        ensures
            res matches Some(i) ==> i < self.run_entries().len(),
            cuts_at(
                *ord,
                self.run_entries(),
                (user_key@, seq),
                match res {
                    Some(i) => i as int,
                    None => self.run_entries().len() as int,
                },
            ),
            crate::sst_block::ascending(*ord, self.run_entries()) ==> crate::sst_block::first_not_before(
                *ord,
                self.run_entries(),
                (user_key@, seq),
                match res {
                    Some(i) => i as int,
                    None => self.run_entries().len() as int,
                },
            ),
    {
        let ghost c = self.codec;
        let ghost raw = self.ents();
        let ghost rs = self.run_entries();
        let ghost t = (user_key@, seq);
        let ghost start = self.restarts@[r as int] as int;
        let ghost end = run_end(self.entries_len as int, self.restarts@, r as int);
        let count = self.run.len();
        proof {
            assert(self.restarts@[r as int] < self.entries_len);
            if r + 1 < self.restarts@.len() {
                assert(self.restarts@[r as int] < self.restarts@[r + 1]);
                assert(self.restarts@[r + 1] < self.entries_len);
            }
            assert(self.run.holds(rs) && self.run.count() == rs.len());
            assert(rs == crate::sst_run::walk_to(c, raw, start, Seq::empty(), end)->Ok_0);
            lemma_walk_to_at(c, raw, start, Seq::empty(), end, 0);
        }
        if self.run.overflowed() {
            let mut key: Vec<u8> = Vec::new();
            assert(key@ =~= Seq::empty());
            let n = self.entries_len;
            let mut off = self.run.start(0);
            let mut i: usize = 0;
            while i < count
                invariant
                    i <= count,
                    count == rs.len(),
                    self.codec == c,
                    c.delta,
                    n == self.entries_len,
                    n <= self.raw@.len(),
                    self.ents() == raw,
                    crate::sst_run::walk_to(c, raw, start, Seq::empty(), end) == Ok::<Seq<Placed>, Fault>(rs),
                    key@ == key_before(rs, i as int),
                    i < rs.len() ==> off == rs[i as int].off,
                    t == (user_key@, seq),
                    rs == self.run_entries(),
                    forall|k: int| 0 <= k < i ==> crate::place::place_lt(*ord, (#[trigger] rs[k]).place(), t),
                decreases count - i,
            {
                let entries = &self.raw.as_slice()[0..n];
                assert(entries@ =~= raw);
                proof {
                    lemma_walk_to_at(c, raw, start, Seq::empty(), end, i as int);
                    if i + 1 < rs.len() {
                        lemma_walk_to_at(c, raw, start, Seq::empty(), end, i + 1);
                    }
                }
                match decode_step(self.codec, entries, off, &mut key) {
                    Err(_) => {
                        assert(false);
                        return None;
                    },
                    Ok((d, next)) => {
                        if !compare_places(ord, key.as_slice(), d.seq, user_key, seq).is_lt() {
                            return Some(i);
                        }
                        off = next;
                    },
                }
                i += 1;
            }
            return None;
        }
        let mut lo: usize = 0;
        let mut hi: usize = count;
        while lo < hi
            invariant
                lo <= hi <= count,
                count == rs.len(),
                self.run.holds(rs),
                self.run.count() == rs.len(),
                !self.run.has_overflowed(),
                t == (user_key@, seq),
                lo > 0 ==> crate::place::place_lt(*ord, rs[lo - 1].place(), t),
                hi < count ==> !crate::place::place_lt(*ord, rs[hi as int].place(), t),
            decreases hi - lo,
        {
            let mid = lo + (hi - lo) / 2;
            let k = self.run.key(mid);
            let q = self.run.seq(mid);
            if compare_places(ord, k, q, user_key, seq).is_lt() {
                lo = mid + 1;
            } else {
                hi = mid;
            }
        }
        proof {
            if crate::sst_block::ascending(*ord, rs) {
                lemma_neighbours(*ord, rs, t, lo as int);
            }
        }
        if lo < count {
            Some(lo)
        } else {
            None
        }
    }
}

/// Entry `k` of the index is entry `k`, as far as it can be read.
proof fn lemma_index_is_nth(c: Codec, raw: Seq<u8>, offsets: Seq<usize>, k: int)
    requires
        !c.delta,
        index_fits(c, raw, offsets),
        0 <= k < offsets.len(),
    ensures
        nth_entry(c, raw, k) == crate::sst_block::parse_at(c, raw, offsets[k] as int, Seq::empty()),
        nth_entry(c, raw, k) is Ok,
    decreases k,
{
    assert(indexed(c, raw, offsets, k));
    if k > 0 {
        assert(indexed(c, raw, offsets, k - 1));
        lemma_index_is_nth(c, raw, offsets, k - 1);
        let p = nth_entry(c, raw, k - 1)->Ok_0;
        lemma_whole_keys(c, raw, offsets[k] as int, p.key, Seq::empty());
    }
}

/// Entry `k` of the index is entry `k` of the block.
proof fn lemma_index_is_walk(c: Codec, raw: Seq<u8>, offsets: Seq<usize>, k: int)
    requires
        !c.delta,
        index_fits(c, raw, offsets),
        crate::sst_block::entries_of(c, raw) is Ok,
        0 <= k < offsets.len(),
    ensures
        ({
            let es = crate::sst_block::entries_of(c, raw)->Ok_0;
            &&& k < es.len()
            &&& offsets[k] == es[k].off
            &&& crate::sst_block::parse_at(c, raw, offsets[k] as int, Seq::empty()) == Ok::<Placed, Fault>(es[k])
        }),
    decreases k,
{
    let es = crate::sst_block::entries_of(c, raw)->Ok_0;
    assert(indexed(c, raw, offsets, k));
    if k == 0 {
        assert(raw.len() > 0);
        assert(es.len() > 0);
        crate::sst_block::lemma_walk_at(c, raw, 0, Seq::empty(), 0);
    } else {
        lemma_index_is_walk(c, raw, offsets, k - 1);
        assert(indexed(c, raw, offsets, k - 1));
        crate::sst_block::lemma_walk_at(c, raw, 0, Seq::empty(), k - 1);
        assert(offsets[k] == es[k - 1].next);
        assert(offsets[k] < raw.len());
        assert(k < es.len());
        crate::sst_block::lemma_walk_at(c, raw, 0, Seq::empty(), k);
        lemma_whole_keys(c, raw, offsets[k] as int, Seq::empty(), es[k - 1].key);
    }
}

impl BlockCursor {
    /// Where the cursor stands in a run, it stands in the block.
    proof fn lemma_run_lands(self, r: int, i: int, a: int, b: int)
        requires
            self.inv(),
            self.codec.delta,
            sound(self.codec, self.ents(), self.restarts@),
            0 <= r < self.restarts@.len(),
            run_between(self.ents(), crate::sst_block::entries_of(self.codec, self.ents())->Ok_0, self.restarts@, r, a, b),
            0 <= i < b - a,
            self.run_idx == r,
            self.run_pos == i,
            self.entry() == Some(crate::sst_block::entries_of(self.codec, self.ents())->Ok_0[a + i]),
        ensures
            self.at_entry(a + i),
    {
        let es = crate::sst_block::entries_of(self.codec, self.ents())->Ok_0;
        if b < es.len() {
            lemma_offsets_ascend(self.codec, self.ents(), a + i, b);
        } else {
            lemma_offsets_ascend(self.codec, self.ents(), a + i, a + i);
        }
    }

    /// Go to entry `i` of run `r`, or to its last; `false` where it has no such
    /// entry.
    fn to_run_entry(&mut self, r: usize, i: Option<usize>) -> (res: Result<bool, OndaError>)
        requires
            old(self).inv(),
            old(self).codec.delta,
            r < old(self).restarts@.len(),
        ensures
            final(self).inv(),
            final(self).same_block(*old(self)),
            res is Ok ==> (if res->Ok_0 { final(self).entry() is Some } else { final(self).entry() == old(self).entry() }),
            res is Err ==> final(self).entry() is None,
            match crate::sst_run::run_of(
                old(self).codec,
                old(self).ents(),
                old(self).restarts@[r as int] as int,
                run_end(old(self).entries_len as int, old(self).restarts@, r as int),
            ) {
                Err(f) => res is Err && crate::format::reports(res->Err_0, f),
                Ok(rs) => {
                    let k = if i is Some { i->0 as int } else { rs.len() - 1 };
                    &&& res is Ok && res->Ok_0 == (k < rs.len())
                    &&& k < rs.len() ==> final(self).entry() == Some(rs[k]) && final(self).spot() == (r as int, k)
                    &&& rs.len() > 0
                },
            },
            i is None && res is Ok ==> res->Ok_0,
            sound(old(self).codec, old(self).ents(), old(self).restarts@) ==> forall|a: int, b: int| #[trigger]
                run_between(old(self).ents(), crate::sst_block::entries_of(old(self).codec, old(self).ents())->Ok_0, old(self).restarts@, r as int, a, b)
                    ==> {
                    let k = if i is Some { i->0 as int } else { b - a - 1 };
                    &&& res is Ok && res->Ok_0 == (k < b - a)
                    &&& k < b - a ==> final(self).at_entry(a + k)
                },
    {
        let ghost c = self.codec;
        let ghost raw = self.ents();
        let ghost ok = sound(c, raw, self.restarts@);
        let ghost es = crate::sst_block::entries_of(c, raw)->Ok_0;
        let ghost rst = self.restarts@;
        let ghost ab = if ok { lemma_run_is_a_stretch(c, raw, rst, r as int) } else { (0, 0) };
        proof {
            if ok {
                assert forall|a: int, b: int| #[trigger] run_between(raw, es, rst, r as int, a, b) implies a == ab.0 && b == ab.1 by {
                    lemma_same_offset(c, raw, a, ab.0);
                    if b < es.len() {
                        lemma_same_offset(c, raw, b, ab.1);
                    } else if ab.1 < es.len() {
                        lemma_same_offset(c, raw, ab.1, b);
                    }
                }
            }
        }
        match self.ensure_run(r) {
            Err(e) => {
                self.cur = None;
                return Err(e);
            },
            Ok(()) => {},
        }
        let count = self.run.len();
        let k = match i {
            Some(k) => k,
            None => count - 1,
        };
        if k >= count {
            return Ok(false);
        }
        self.position_in_run(r, k);
        proof {
            if ok {
                self.lemma_run_lands(r as int, k as int, ab.0, ab.1);
            }
        }
        Ok(true)
    }

    /// Go to the last entry; `false` where the block has none.
    #[verifier::spinoff_prover]
    #[verifier::rlimit(40)]
    pub fn to_last(&mut self) -> (r: Result<bool, OndaError>)
        requires
            old(self).inv(),
        ensures
            final(self).inv(),
            final(self).same_block(*old(self)),
            final(self).came_to(*old(self), last_entry(old(self).how(), old(self).ents(), old(self).anchors()), r),
            sound(old(self).how(), old(self).ents(), old(self).anchors()) ==> {
                let es = crate::sst_block::entries_of(old(self).how(), old(self).ents())->Ok_0;
                &&& r is Ok && r->Ok_0 == (es.len() > 0)
                &&& es.len() > 0 ==> final(self).at_entry(es.len() - 1)
            },
    {
        let ghost c = self.codec;
        let ghost raw = self.ents();
        self.cur = None;
        if self.codec.delta {
            let count = self.restarts.len();
            if count == 0 {
                return Ok(false);
            }
            let r = count - 1;
            proof {
                if sound(c, raw, self.restarts@) {
                    let es = crate::sst_block::entries_of(c, raw)->Ok_0;
                    let ab = lemma_run_is_a_stretch(c, raw, self.restarts@, r as int);
                    if ab.1 < es.len() {
                        lemma_offsets_ascend(c, raw, ab.1, ab.1);
                    }
                }
            }
            return self.to_run_entry(r, None);
        }
        self.index_all()?;
        if self.offsets.len() == 0 {
            return Ok(false);
        }
        let last = self.offsets.len() - 1;
        self.to_indexed(last);
        proof {
            lemma_index_is_walk(c, raw, self.offsets@, last as int);
        }
        Ok(true)
    }

    /// Go to the entry before; `false` where there is none, which leaves it
    /// where it is.
    pub fn prev(&mut self) -> (r: Result<bool, OndaError>)
        requires
            old(self).inv(),
            old(self).entry() is Some,
        ensures
            final(self).inv(),
            final(self).same_block(*old(self)),
            match entry_before(old(self).how(), old(self).ents(), old(self).anchors(), old(self).spot()) {
                None => r == Ok::<bool, OndaError>(false) && final(self).entry() == old(self).entry() && final(self).spot() == old(self).spot(),
                Some(found) => final(self).came_to(*old(self), Some(found), r),
            },
            sound(old(self).how(), old(self).ents(), old(self).anchors()) ==> forall|j: int| #[trigger]
                old(self).at_entry(j) ==> {
                    &&& r is Ok && r->Ok_0 == (j > 0)
                    &&& j > 0 ==> final(self).at_entry(j - 1)
                    &&& j == 0 ==> final(self).at_entry(0)
                },
    {
        let ghost c = self.codec;
        let ghost raw = self.ents();
        let ghost was = *self;
        if self.codec.delta {
            return self.prev_delta();
        }
        proof {
            if sound(c, raw, self.restarts@) {
                lemma_index_is_walk(c, raw, self.offsets@, self.pos as int);
                if self.pos > 0 {
                    lemma_index_is_walk(c, raw, self.offsets@, self.pos - 1);
                }
                assert forall|j: int| #[trigger] was.at_entry(j) implies j == was.pos by {
                    let p = was.pos as int;
                    if j < p {
                        lemma_offsets_ascend(c, raw, j, p);
                    } else if p < j {
                        lemma_offsets_ascend(c, raw, p, j);
                    }
                }
            }
        }
        if self.pos == 0 {
            return Ok(false);
        }
        let i = self.pos - 1;
        proof {
            lemma_index_is_nth(c, raw, self.offsets@, i as int);
        }
        self.to_indexed(i);
        Ok(true)
    }

    /// Where the entry before `j` is: in the run from `ab.0` to `ab.1`, which is
    /// the same run or the one before.
    spec fn goes_back(self, ab: (int, int), j: int) -> bool {
        j > 0 && (if self.run_pos == 0 { j == ab.1 } else { j - self.run_pos == ab.0 && j < ab.1 })
    }

    proof fn lemma_goes_back(self, ab: (int, int), j: int)
        requires
            self.inv(),
            self.codec.delta,
            self.at_entry(j),
            sound(self.codec, self.ents(), self.restarts@),
            self.run_pos > 0 || self.run_idx > 0,
            run_between(
                self.ents(),
                crate::sst_block::entries_of(self.codec, self.ents())->Ok_0,
                self.restarts@,
                if self.run_pos == 0 { self.run_idx - 1 } else { self.run_idx as int },
                ab.0,
                ab.1,
            ),
        ensures
            self.goes_back(ab, j),
    {
        let c = self.codec;
        let raw = self.ents();
        let es = crate::sst_block::entries_of(c, raw)->Ok_0;
        if self.run_pos == 0 {
            lemma_same_offset(c, raw, j, ab.1);
        } else {
            lemma_same_offset(c, raw, j - self.run_pos, ab.0);
            if ab.1 < es.len() && ab.1 <= j {
                lemma_offsets_ascend(c, raw, ab.1, j);
            }
        }
    }

    #[verifier::spinoff_prover]
    #[verifier::rlimit(40)]
    fn prev_delta(&mut self) -> (r: Result<bool, OndaError>)
        requires
            old(self).inv(),
            old(self).entry() is Some,
            old(self).codec.delta,
        ensures
            final(self).inv(),
            final(self).same_block(*old(self)),
            match entry_before(old(self).codec, old(self).ents(), old(self).restarts@, old(self).spot()) {
                None => r == Ok::<bool, OndaError>(false) && final(self).entry() == old(self).entry() && final(self).spot() == old(self).spot(),
                Some(found) => final(self).came_to(*old(self), Some(found), r),
            },
            sound(old(self).codec, old(self).ents(), old(self).restarts@) ==> forall|j: int| #[trigger]
                old(self).at_entry(j) ==> {
                    &&& r is Ok && r->Ok_0 == (j > 0)
                    &&& j > 0 ==> final(self).at_entry(j - 1)
                    &&& j == 0 ==> final(self).at_entry(0)
                },
    {
        let ghost c = self.codec;
        let ghost raw = self.ents();
        let ghost was = *self;
        let ghost ok = sound(c, raw, self.restarts@);
        let ghost es = crate::sst_block::entries_of(c, raw)->Ok_0;
        if self.run_pos == 0 && self.run_idx == 0 {
            proof {
                assert forall|j: int| ok && #[trigger] was.at_entry(j) implies j == 0 by {
                    if j > 0 {
                        lemma_offsets_ascend(c, raw, 0, j);
                    }
                }
            }
            return Ok(false);
        }
        let back = self.run_pos == 0;
        let r = if back { self.run_idx - 1 } else { self.run_idx };
        let i = if back { None } else { Some(self.run_pos - 1) };
        let ghost ab = if ok { lemma_run_is_a_stretch(c, raw, self.restarts@, r as int) } else { (0, 0) };
        proof {
            if ok {
                assert(run_between(raw, es, was.restarts@, r as int, ab.0, ab.1));
                assert forall|j: int| #[trigger] was.at_entry(j) implies was.goes_back(ab, j) by {
                    was.lemma_goes_back(ab, j);
                }
            }
        }
        let res = self.to_run_entry(r, i);
        proof {
            if ok {
                let k = if back { ab.1 - ab.0 - 1 } else { was.run_pos - 1 };
                assert(res is Ok && res->Ok_0 == (k < ab.1 - ab.0));
                assert(k < ab.1 - ab.0 ==> self.at_entry(ab.0 + k));
                assert forall|j: int| #[trigger] was.at_entry(j) implies j > 0 && res->Ok_0 && self.at_entry(j - 1) by {
                    assert(was.goes_back(ab, j));
                    assert(ab.0 + k == j - 1);
                }
            }
        }
        res
    }

    /// Whether it has come to where the search for a target may lead, or to the
    /// fault of an anchor.
    pub open spec fn sought<C: Comparator>(self, was: BlockCursor, ord: C, t: crate::place::Place, r: Result<bool, OndaError>) -> bool {
        ||| r is Err && self.entry() is None && exists|k: int| #[trigger] anchor_blamed(was.how(), was.ents(), was.anchors(), k, r->Err_0)
        ||| exists|n: int, i: int| #[trigger]
            may_find(ord, was.how(), was.ents(), was.anchors(), t, n, i) && self.came_to(was, entry_found(was.how(), was.ents(), was.anchors(), n, i), r)
    }

    /// Go to the first entry that is not before `(user_key, seq)`; `false`
    /// where there is none.
    pub fn seek<C: Comparator>(&mut self, ord: &C, user_key: &[u8], seq: u64) -> (r: Result<bool, OndaError>)
        requires
            old(self).inv(),
        ensures
            final(self).inv(),
            final(self).same_block(*old(self)),
            final(self).sought(*old(self), *ord, (user_key@, seq), r),
            sound(old(self).how(), old(self).ents(), old(self).anchors()) ==> {
                let es = crate::sst_block::entries_of(old(self).how(), old(self).ents())->Ok_0;
                crate::sst_block::ascending(*ord, es) ==> r is Ok && exists|i: int| #[trigger]
                    crate::sst_block::first_not_before(*ord, es, (user_key@, seq), i) && r->Ok_0 == (i < es.len()) && (i < es.len() ==> final(self).at_entry(
                        i,
                    ))
            },
    {
        self.cur = None;
        if self.codec.delta {
            return self.seek_delta(ord, user_key, seq);
        }
        let ghost c = self.codec;
        let ghost raw = self.ents();
        let ghost t = (user_key@, seq);
        match self.index_all() {
            Err(e) => {
                assert(may_find(*ord, c, raw, self.anchors(), t, 0, 0));
                return Err(e);
            },
            Ok(()) => {},
        }
        let ghost es = crate::sst_block::entries_of(c, raw)->Ok_0;
        let ghost was = *self;
        let n = self.entries_len;
        let count = self.offsets.len();
        let mut lo: usize = 0;
        let mut hi: usize = count;
        while lo < hi
            invariant
                lo <= hi <= count,
                count == es.len(),
                *self == was,
                was.inv(),
                was.cur is None,
                !c.delta,
                c == was.codec,
                raw == was.ents(),
                n == was.entries_len,
                was.offsets@.len() == count,
                was.pos == old(self).pos,
                was.same_block(*old(self)),
                crate::sst_block::entries_of(c, raw) == Ok::<Seq<Placed>, Fault>(es),
                t == (user_key@, seq),
                lo > 0 ==> crate::place::place_lt(*ord, es[lo - 1].place(), t),
                hi < count ==> !crate::place::place_lt(*ord, es[hi as int].place(), t),
            decreases hi - lo,
        {
            let mid = lo + (hi - lo) / 2;
            let entries = &self.raw.as_slice()[0..n];
            assert(entries@ =~= raw);
            proof {
                lemma_index_is_walk(c, raw, self.offsets@, mid as int);
            }
            match decode_entry(entries, self.codec.layout, self.offsets[mid]) {
                Err(_) => {
                    assert(false);
                    return Ok(false);
                },
                Ok((d, _)) => {
                    if compare_places(ord, d.user_key(entries), d.seq, user_key, seq).is_lt() {
                        lo = mid + 1;
                    } else {
                        hi = mid;
                    }
                },
            }
        }
        proof {
            if crate::sst_block::ascending(*ord, es) {
                lemma_neighbours(*ord, es, t, lo as int);
            }
        }
        assert(may_find(*ord, c, raw, old(self).anchors(), t, 0, lo as int));
        if lo >= count {
            return Ok(false);
        }
        self.to_indexed(lo);
        proof {
            lemma_index_is_walk(c, raw, self.offsets@, lo as int);
        }
        Ok(true)
    }

    /// Look for a target where `lower` anchors come before it: in the run of the
    /// last of them, then at the next anchor. Also before which entry of that
    /// run it belongs.
    fn seek_from<C: Comparator>(&mut self, ord: &C, lower: usize, user_key: &[u8], seq: u64) -> (res: (Result<bool, OndaError>, Ghost<int>))
        requires
            old(self).inv(),
            old(self).codec.delta,
            old(self).cur is None,
            old(self).restarts@.len() > 0,
            anchors_bound(*ord, old(self).codec, old(self).ents(), old(self).restarts@, (user_key@, seq), lower as int),
        ensures
            final(self).inv(),
            final(self).same_block(*old(self)),
            may_find(*ord, old(self).codec, old(self).ents(), old(self).restarts@, (user_key@, seq), lower as int, res.1@),
            final(self).came_to(*old(self), entry_found(old(self).codec, old(self).ents(), old(self).restarts@, lower as int, res.1@), res.0),
    {
        let count = self.restarts.len();
        let r = if lower > 0 { lower - 1 } else { 0 };
        match self.ensure_run(r) {
            Err(e) => {
                return (Err(e), Ghost(0));
            },
            Ok(()) => {},
        }
        let ghost rs = self.run_entries();
        match self.find_in_run(ord, r, user_key, seq) {
            Some(i) => (self.to_run_entry(r, Some(i)), Ghost(i as int)),
            None => {
                if r + 1 < count {
                    return (self.to_run_entry(r + 1, Some(0)), Ghost(rs.len() as int));
                }
                (Ok(false), Ghost(rs.len() as int))
            },
        }
    }

    /// In a block that can be read and is in order, the search comes to the
    /// first entry that is not before the target.
    proof fn lemma_search_finds<C: Comparator>(self, was: BlockCursor, ord: C, t: crate::place::Place, n: int, i: int, r: Result<bool, OndaError>)
        requires
            self.inv(),
            self.codec.delta,
            self.same_block(was),
            was.inv(),
            was.restarts@.len() > 0,
            sound(was.codec, was.ents(), was.restarts@),
            crate::sst_block::ascending(ord, crate::sst_block::entries_of(was.codec, was.ents())->Ok_0),
            may_find(ord, was.codec, was.ents(), was.restarts@, t, n, i),
            self.came_to(was, entry_found(was.codec, was.ents(), was.restarts@, n, i), r),
        ensures
            r is Ok,
            ({
                let es = crate::sst_block::entries_of(was.codec, was.ents())->Ok_0;
                exists|x: int| #[trigger]
                    crate::sst_block::first_not_before(ord, es, t, x) && r->Ok_0 == (x < es.len()) && (x < es.len() ==> self.at_entry(x))
            }),
    {
        let c = was.codec;
        let raw = was.ents();
        let rst = was.restarts@;
        let es = crate::sst_block::entries_of(c, raw)->Ok_0;
        let q = searched_run(n);
        let ab = lemma_run_is_a_stretch(c, raw, rst, q);
        let rs = es.subrange(ab.0, ab.1);
        assert(run_at(c, raw, rst, q) == Ok::<Seq<Placed>, Fault>(rs));
        if crate::sst_block::ascending(ord, rs) {
            lemma_neighbours(ord, rs, t, i);
        }
        lemma_stretch_search(ord, c, raw, rst, t, n, q, ab.0, ab.1, i);
        if i < rs.len() {
            self.lemma_run_lands(q, i, ab.0, ab.1);
        } else if q + 1 < rst.len() {
            let ab2 = lemma_run_is_a_stretch(c, raw, rst, q + 1);
            lemma_same_offset(c, raw, ab.1, ab2.0);
            assert(es.subrange(ab2.0, ab2.1)[0] == es[ab2.0]);
            self.lemma_run_lands(q + 1, 0, ab2.0, ab2.1);
        } else if ab.1 < es.len() {
            lemma_offsets_ascend(c, raw, ab.1, ab.1);
        }
        assert(crate::sst_block::first_not_before(ord, es, t, ab.0 + i));
    }

    fn seek_delta<C: Comparator>(&mut self, ord: &C, user_key: &[u8], seq: u64) -> (r: Result<bool, OndaError>)
        requires
            old(self).inv(),
            old(self).codec.delta,
            old(self).cur is None,
        ensures
            final(self).inv(),
            final(self).same_block(*old(self)),
            final(self).sought(*old(self), *ord, (user_key@, seq), r),
            sound(old(self).codec, old(self).ents(), old(self).restarts@) ==> {
                let es = crate::sst_block::entries_of(old(self).codec, old(self).ents())->Ok_0;
                crate::sst_block::ascending(*ord, es) ==> r is Ok && exists|i: int| #[trigger]
                    crate::sst_block::first_not_before(*ord, es, (user_key@, seq), i) && r->Ok_0 == (i < es.len()) && (i < es.len() ==> final(self).at_entry(
                        i,
                    ))
            },
    {
        let ghost c = self.codec;
        let ghost raw = self.ents();
        let ghost t = (user_key@, seq);
        let ghost es = crate::sst_block::entries_of(c, raw)->Ok_0;
        let count = self.restarts.len();
        if count == 0 {
            proof {
                assert(may_find(*ord, c, raw, self.restarts@, t, 0, 0));
                assert(raw.len() == 0);
                if sound(c, raw, self.restarts@) {
                    assert(crate::sst_block::first_not_before(*ord, es, t, 0));
                }
            }
            return Ok(false);
        }
        let lower = match self.anchors_before(ord, user_key, seq) {
            Err(e) => {
                proof {
                    let k = choose|k: int| #[trigger] anchor_blamed(c, raw, self.restarts@, k, e);
                    let failed: Result<bool, OndaError> = Err(e);
                    assert(anchor_blamed(self.how(), self.ents(), self.anchors(), k, failed->Err_0));
                    assert(self.sought(*old(self), *ord, t, failed));
                }
                return Err(e);
            },
            Ok(n) => n,
        };
        let (r, Ghost(i)) = self.seek_from(ord, lower, user_key, seq);
        proof {
            if sound(c, raw, old(self).restarts@) && crate::sst_block::ascending(*ord, es) {
                self.lemma_search_finds(*old(self), *ord, t, lower as int, i, r);
            }
        }
        r
    }

    /// How many anchors come before `(user_key, seq)`.
    fn anchors_before<C: Comparator>(&self, ord: &C, user_key: &[u8], seq: u64) -> (r: Result<usize, OndaError>)
        requires
            self.inv(),
            self.codec.delta,
        ensures
            match r {
                Ok(n) => anchors_bound(*ord, self.codec, self.ents(), self.restarts@, (user_key@, seq), n as int),
                Err(e) => exists|k: int| #[trigger] anchor_blamed(self.codec, self.ents(), self.restarts@, k, e),
            },
            sound(self.codec, self.ents(), self.restarts@) ==> r is Ok,
    {
        let n = self.entries_len;
        let entries = &self.raw.as_slice()[0..n];
        assert(entries@ =~= self.ents());
        let restarts = &self.restarts;
        let c = self.codec;
        let count = restarts.len();
        let probe = |i: usize| -> (b: Result<bool, OndaError>)
            requires
                i < restarts@.len(),
            ensures
                match crate::sst_block::parse_anchor_at(c, entries@, restarts@[i as int] as int) {
                    Ok(p) => b == Ok::<bool, OndaError>(crate::place::place_lt(*ord, p, (user_key@, seq))),
                    Err(f) => b is Err && crate::format::reports(b->Err_0, f),
                },
        { anchor_is_before(ord, c, entries, restarts[i], user_key, seq) };
        let r = restart_lower_bound(count, probe);
        proof {
            if r is Err {
                let e = r->Err_0;
                let i = choose|i: usize| i < count && #[trigger] call_ensures(probe, (i,), Err(e));
                assert(anchor_blamed(c, entries@, restarts@, i as int, e));
                if sound(c, entries@, restarts@) {
                    let ab = lemma_run_is_a_stretch(c, entries@, restarts@, i as int);
                }
            }
        }
        r
    }
}

/// Whether `n` anchors come before a target, so far as their neighbours tell.
pub open spec fn anchors_bound<C: Comparator>(ord: C, c: Codec, raw: Seq<u8>, restarts: Seq<usize>, t: crate::place::Place, n: int) -> bool {
    &&& 0 <= n <= restarts.len()
    &&& n > 0 ==> (crate::sst_block::parse_anchor_at(c, raw, restarts[n - 1] as int) matches Ok(p) && crate::place::place_lt(ord, p, t))
    &&& n < restarts.len() ==> (crate::sst_block::parse_anchor_at(c, raw, restarts[n] as int) matches Ok(p) && !crate::place::place_lt(ord, p, t))
}

/// Two entries at one offset are the same.
proof fn lemma_same_offset(c: Codec, raw: Seq<u8>, i: int, k: int)
    requires
        crate::sst_block::entries_of(c, raw) matches Ok(es) && 0 <= i < es.len() && 0 <= k <= es.len() && es[i].off == offset_of(raw, es, k),
    ensures
        i == k,
{
    let es = crate::sst_block::entries_of(c, raw)->Ok_0;
    lemma_offsets_ascend(c, raw, i, i);
    if k < es.len() {
        if i < k {
            lemma_offsets_ascend(c, raw, i, k);
        } else if k < i {
            lemma_offsets_ascend(c, raw, k, i);
        }
    }
}

/// The search of one run decides for the block.
proof fn lemma_stretch_search<C: Comparator>(
    ord: C,
    c: Codec,
    raw: Seq<u8>,
    restarts: Seq<usize>,
    t: crate::place::Place,
    lower: int,
    r: int,
    a: int,
    b: int,
    i: int,
)
    requires
        c.delta,
        sound(c, raw, restarts),
        restarts_fit(raw.len() as int, restarts),
        restarts.len() > 0,
        crate::sst_block::ascending(ord, crate::sst_block::entries_of(c, raw)->Ok_0),
        anchors_bound(ord, c, raw, restarts, t, lower),
        r == (if lower > 0 { lower - 1 } else { 0 }),
        run_between(raw, crate::sst_block::entries_of(c, raw)->Ok_0, restarts, r, a, b),
        crate::sst_block::ascending(ord, crate::sst_block::entries_of(c, raw)->Ok_0.subrange(a, b)) ==> crate::sst_block::first_not_before(
            ord,
            crate::sst_block::entries_of(c, raw)->Ok_0.subrange(a, b),
            t,
            i,
        ),
    ensures
        crate::sst_block::first_not_before(ord, crate::sst_block::entries_of(c, raw)->Ok_0, t, a + i),
{
    let es = crate::sst_block::entries_of(c, raw)->Ok_0;
    let rs = es.subrange(a, b);
    assert(crate::sst_block::ascending(ord, rs)) by {
        assert forall|x: int, y: int| 0 <= x < y < rs.len() implies crate::place::place_lt(ord, (#[trigger] rs[x]).place(), (#[trigger] rs[y]).place()) by {
            assert(rs[x] == es[a + x] && rs[y] == es[a + y]);
        }
    }
    let ab = lemma_run_is_a_stretch(c, raw, restarts, r);
    lemma_same_offset(c, raw, a, ab.0);
    if i > 0 {
        assert(rs[i - 1] == es[a + i - 1]);
    } else if a > 0 {
        // The run begins with an anchor that is before the target.
        if lower > 0 {
            assert(rs[0] == es[a]);
        } else {
            lemma_same_offset(c, raw, a, 0);
        }
    }
    if i < rs.len() {
        assert(rs[i] == es[a + i]);
    } else if b < es.len() {
        if r + 1 < restarts.len() {
            let ab2 = lemma_run_is_a_stretch(c, raw, restarts, r + 1);
            lemma_same_offset(c, raw, b, ab2.0);
            if lower == 0 {
                assert(rs[0] == es[a]);
            }
        } else {
            lemma_offsets_ascend(c, raw, b, b);
        }
    }
    lemma_neighbours(ord, es, t, a + i);
}

impl BlockCursor {
    /// The whole key of the entry.
    pub fn user_key(&self) -> (r: &[u8])
        requires
            self.inv(),
            self.entry() is Some,
        ensures
            r@ == (self.entry()->0).key,
    {
        if self.codec.delta {
            return self.key.as_slice();
        }
        let d = self.decoded();
        let k = d.user_key(self.raw.as_slice());
        proof {
            assert(k@ =~= self.ents().subrange(d.key_start as int, d.key_start + d.key_len));
        }
        k
    }

    /// Whether it stands, or last stood, on the first entry of a block.
    pub fn at_front(&self) -> (r: bool)
        ensures
            r == (self.spot() == (0int, 0int)),
    {
        if self.codec.delta { self.run_idx == 0 && self.run_pos == 0 } else { self.pos == 0 }
    }

    /// Whether keys are stored in part, and the block has no anchors.
    pub fn is_bare(&self) -> (r: bool)
        ensures
            r == (self.how().delta && self.anchors().len() == 0),
    {
        self.codec.delta && self.restarts.len() == 0
    }

    /// Whether it stands on an entry.
    pub fn has_entry(&self) -> (r: bool)
        ensures
            r == (self.entry() is Some),
    {
        self.cur.is_some()
    }

    fn decoded(&self) -> (r: DecEntry)
        requires
            self.inv(),
            self.entry() is Some,
        ensures
            self.cur == Some(r),
    {
        match self.cur {
            Some(d) => d,
            None => DecEntry {
                key_start: 0,
                key_len: 0,
                key_shared: 0,
                val_start: 0,
                val_len: 0,
                seq: 0,
                ttl: 0,
                flags: 0,
                kind: 0,
                vlog_off: 0,
            },
        }
    }

    pub fn seq(&self) -> (r: u64)
        requires
            self.inv(),
            self.entry() is Some,
        ensures
            r == (self.entry()->0).fields.seq,
    {
        self.decoded().seq
    }

    pub fn ttl(&self) -> (r: i64)
        requires
            self.inv(),
            self.entry() is Some,
        ensures
            r == (self.entry()->0).fields.ttl,
    {
        self.decoded().ttl
    }

    pub fn is_tombstone(&self) -> (r: bool)
        requires
            self.inv(),
            self.entry() is Some,
        ensures
            r == ((self.entry()->0).fields.flags & crate::flags::TOMBSTONE != 0),
    {
        self.decoded().tombstone()
    }

    pub fn is_single_delete(&self) -> (r: bool)
        requires
            self.inv(),
            self.entry() is Some,
        ensures
            r == ((self.entry()->0).fields.flags & crate::flags::SINGLE_DELETE != 0),
    {
        self.decoded().single_delete()
    }

    pub fn kind(&self) -> (r: u64)
        requires
            self.inv(),
            self.entry() is Some,
        ensures
            r == (self.entry()->0).fields.kind,
    {
        self.decoded().kind as u64
    }

    /// The value, or where in the value log it is.
    pub fn value(&self) -> (r: StoredValue)
        requires
            self.inv(),
            self.entry() is Some,
        ensures
            r@ == crate::sst_block::value_of((self.entry()->0).fields),
    {
        let d = self.decoded();
        if d.has_vlog() {
            StoredValue::Logged(d.vlog_off, d.val_len as u64)
        } else {
            let n = self.entries_len;
            let entries = &self.raw.as_slice()[0..n];
            assert(entries@ =~= self.ents());
            StoredValue::Inline(copy_bytes(d.inline_value(entries)))
        }
    }

    /// Where in the block the value stands, and how long it is; none for a
    /// value in the value log.
    pub fn value_block_ref(&self) -> (r: Option<(usize, usize)>)
        requires
            self.inv(),
            self.entry() is Some,
        ensures
            match r {
                Some((start, len)) => (self.entry()->0).fields.flags & crate::flags::HAS_VLOG == 0 && start + len <= self.block().len()
                    && self.block().subrange(start as int, start + len) == (self.entry()->0).fields.value,
                None => (self.entry()->0).fields.flags & crate::flags::HAS_VLOG != 0,
            },
    {
        let d = self.decoded();
        if d.has_vlog() {
            return None;
        }
        proof {
            let p = self.at@;
            assert(self.raw@.subrange(d.val_start as int, d.val_start + d.val_len) =~= self.ents().subrange(d.val_start as int, p.next));
        }
        Some((d.val_start, d.val_len))
    }

    /// Where in the block the key stands, and how long it is; none where keys
    /// are stored in part, so that none stands there whole.
    pub fn key_block_ref(&self) -> (r: Option<(usize, usize)>)
        requires
            self.inv(),
            self.entry() is Some,
        ensures
            match r {
                Some((start, len)) => !self.how().delta && start + len <= self.block().len() && self.block().subrange(start as int, start + len)
                    == (self.entry()->0).key,
                None => self.how().delta,
            },
    {
        if self.codec.delta {
            return None;
        }
        let d = self.decoded();
        proof {
            assert(self.raw@.subrange(d.key_start as int, d.key_start + d.key_len) =~= self.ents().subrange(
                d.key_start as int,
                d.key_start + d.key_len,
            ));
        }
        Some((d.key_start, d.key_len))
    }
}

/// What stands before an entry matters only where keys are stored in part.
proof fn lemma_whole_keys(c: Codec, raw: Seq<u8>, off: int, a: Seq<u8>, b: Seq<u8>)
    requires
        !c.delta,
    ensures
        crate::sst_block::parse_at(c, raw, off, a) == crate::sst_block::parse_at(c, raw, off, b),
{
}

/// Entries stand one behind the other, each at least a byte long.
proof fn lemma_offsets_ascend(c: Codec, raw: Seq<u8>, i: int, k: int)
    requires
        crate::sst_block::entries_of(c, raw) matches Ok(es) && 0 <= i <= k < es.len(),
    ensures
        ({
            let es = crate::sst_block::entries_of(c, raw)->Ok_0;
            &&& i < k ==> es[i].off < es[k].off
            &&& k <= es[k].off < raw.len()
        }),
    decreases k,
{
    crate::sst_block::lemma_walk_at(c, raw, 0, Seq::empty(), k);
    if k > 0 {
        crate::sst_block::lemma_walk_at(c, raw, 0, Seq::empty(), k - 1);
        lemma_offsets_ascend(c, raw, if i < k { i } else { k - 1 }, k - 1);
    }
}

impl BlockCursor {
    /// The next entry is in the same run, or opens the next.
    proof fn lemma_next_lands(was: BlockCursor, now: BlockCursor, j: int)
        requires
            was.inv(),
            was.at_entry(j),
            sound(was.codec, was.ents(), was.restarts@),
            now.same_block(was),
            was.cur_next < was.entries_len,
            now.entry() == Some(crate::sst_block::entries_of(was.codec, was.ents())->Ok_0[j + 1]),
            j + 1 < crate::sst_block::entries_of(was.codec, was.ents())->Ok_0.len(),
            was.codec.delta ==> now.spot() == spot_behind(was.codec, was.restarts@, was.spot(), was.cur_next as int),
        ensures
            now.at_entry(j + 1),
    {
        let c = was.codec;
        let raw = was.ents();
        let es = crate::sst_block::entries_of(c, raw)->Ok_0;
        assert(now.ents() == raw);
        if c.delta {
            crate::sst_block::lemma_walk_at(c, raw, 0, Seq::empty(), j + 1);
            lemma_offsets_ascend(c, raw, j, j + 1);
            let r = was.run_idx as int;
            let opens = r + 1 < was.restarts@.len() && was.restarts@[r + 1] == was.cur_next;
            if !opens && r + 1 < was.restarts@.len() {
                let a = was.restarts@[r + 1] as int;
                assert(crate::sst_block::has_anchor(c, es, a));
                let m = choose|m: int| crate::sst_block::is_anchor(c, es, m, a);
                if m <= j {
                    lemma_offsets_ascend(c, raw, m, j);
                } else if m > j + 1 {
                    lemma_offsets_ascend(c, raw, j + 1, m);
                }
            }
            if opens && r + 2 < was.restarts@.len() {
                assert(was.restarts@[r + 1] < was.restarts@[r + 2]);
            }
        }
    }
}

} // verus!
