//! Walking a table in both directions, over blocks that someone else reads.
//!
//! An operation tells which block it needs, or that it is done. The block is
//! then handed in, which may call for another.

use vstd::prelude::*;

use crate::comparator::Comparator;
use crate::encoding::{append_slice, copy_bytes};
use crate::error::OndaError;
use crate::format::Fault;
use crate::key_prefix::key_prefix8;
use crate::place::compare_places;
use crate::sst_block::{Codec, Placed, StoredValue};
use crate::sst_cursor::BlockCursor;
use crate::sst_reader::Reader;

verus! {

/// What is to be done with the block that is waited for.
#[derive(Debug, Clone, Copy, PartialEq, Eq, Structural)]
pub enum Goal {
    /// No block is waited for.
    Nothing,
    /// Go to the first entry of this block.
    First(usize),
    /// Go to its last entry.
    Last(usize),
    /// Look for the target in it.
    Seek(usize),
}

impl Goal {
    pub open spec fn wanted(self) -> Option<usize> {
        match self {
            Goal::Nothing => None,
            Goal::First(i) => Some(i),
            Goal::Last(i) => Some(i),
            Goal::Seek(i) => Some(i),
        }
    }
}

/// A position in a table.
pub struct SstIterator<'a, C: Comparator> {
    r: &'a Reader<C>,
    cursor: BlockCursor,
    block: Option<usize>,
    valid: bool,
    err: Option<OndaError>,
    goal: Goal,
    back: bool,
    key: Vec<u8>,
    seq: u64,
}

impl<'a, C: Comparator> SstIterator<'a, C> {
    pub closed spec fn table(self) -> Reader<C> {
        *self.r
    }

    /// What waits to be done with the next block.
    pub closed spec fn aim(self) -> Goal {
        self.goal
    }

    /// The block that it is on.
    pub closed spec fn block_no(self) -> Option<usize> {
        self.block
    }

    pub closed spec fn within(self) -> BlockCursor {
        self.cursor
    }

    /// Whether it has come to an entry, though something went wrong before.
    pub closed spec fn poised(self) -> bool {
        self.valid
    }

    pub open spec fn is_valid(self) -> bool {
        self.poised() && self.failure() is None
    }

    pub closed spec fn failure(self) -> Option<OndaError> {
        self.err
    }

    pub closed spec fn target(self) -> crate::place::Place {
        (self.key@, self.seq)
    }

    /// Whether it looks for the last entry that is not behind the target.
    pub closed spec fn looks_back(self) -> bool {
        self.back
    }

    pub open spec fn blocks(self) -> int {
        self.table()@.index.len() as int
    }

    pub closed spec fn inv(self) -> bool {
        &&& self.cursor.inv()
        &&& self.cursor.how() == self.r@.codec
        &&& self.valid ==> self.cursor.entry() is Some && self.block is Some
        &&& self.block matches Some(b) ==> b < self.r@.index.len()
        &&& self.goal.wanted() matches Some(b) ==> b < self.r@.index.len()
        &&& !(self.goal is Nothing) ==> !self.valid
        &&& self.back ==> self.goal is First || self.goal is Seek
    }

    /// Whether it stands on entry `j` of block `b`.
    pub open spec fn stands(self, b: int, j: int) -> bool {
        &&& self.is_valid()
        &&& self.block_no() matches Some(x) && x == b
        &&& self.within().at_entry(j)
    }

    /// On no entry.
    pub fn new(r: &'a Reader<C>) -> (it: SstIterator<'a, C>)
        ensures
            it.inv(),
            it.table() == *r,
            !it.poised(),
            it.failure() is None,
            it.aim() is Nothing,
            it.block_no() is None,
    {
        SstIterator {
            r,
            cursor: BlockCursor::new(r.codec()),
            block: None,
            valid: false,
            err: None,
            goal: Goal::Nothing,
            back: false,
            key: Vec::new(),
            seq: 0,
        }
    }

    /// Whether it stands on an entry, and nothing went wrong.
    pub fn valid(&self) -> (r: bool)
        ensures
            r == self.is_valid(),
    {
        self.valid && self.err.is_none()
    }

    /// What went wrong, once something has.
    pub fn err(&self) -> (r: Option<&OndaError>)
        ensures
            match r {
                Some(e) => self.failure() == Some(*e),
                None => self.failure() is None,
            },
    {
        match &self.err {
            Some(e) => Some(e),
            None => None,
        }
    }

    /// How often the keys of a run were too many bytes to keep.
    pub fn run_arena_overflows(&self) -> (r: u64)
        ensures
            r == self.within().times_overflowed(),
    {
        self.cursor.run_arena_overflows()
    }

    /// Wait for a block, or stand nowhere where there is no such block.
    fn want(&mut self, goal: Goal) -> (r: Option<usize>)
        requires
            old(self).inv(),
            goal.wanted() is Some,
            !old(self).back,
        ensures
            final(self).inv(),
            final(self).table() == old(self).table(),
            final(self).cursor == old(self).cursor,
            final(self).failure() == old(self).failure(),
            !final(self).valid,
            !final(self).back,
            goal.wanted()->0 < old(self).blocks() ==> r == goal.wanted() && final(self).aim() == goal && final(self).block == old(self).block,
            goal.wanted()->0 >= old(self).blocks() ==> r is None && final(self).aim() is Nothing && final(self).block is None,
            final(self).target() == old(self).target(),
    {
        let i = match goal {
            Goal::Nothing => 0,
            Goal::First(i) => i,
            Goal::Last(i) => i,
            Goal::Seek(i) => i,
        };
        self.valid = false;
        if i < self.r.data_block_count() {
            self.goal = goal;
            Some(i)
        } else {
            self.goal = Goal::Nothing;
            self.block = None;
            None
        }
    }

    /// Go to the first entry: the block that this needs.
    pub fn seek_to_first(&mut self) -> (r: Option<usize>)
        requires
            old(self).inv(),
        ensures
            final(self).inv(),
            final(self).table() == old(self).table(),
            final(self).failure() == old(self).failure(),
            final(self).within() == old(self).within(),
            !final(self).poised(),
            !final(self).looks_back(),
            old(self).blocks() > 0 ==> r == Some(0usize) && final(self).aim() == Goal::First(0),
            old(self).blocks() == 0 ==> r is None && final(self).aim() is Nothing && final(self).block_no() is None,
    {
        self.back = false;
        self.goal = Goal::Nothing;
        self.want(Goal::First(0))
    }

    /// Go to the last entry: the block that this needs.
    pub fn seek_to_last(&mut self) -> (r: Option<usize>)
        requires
            old(self).inv(),
        ensures
            final(self).inv(),
            final(self).table() == old(self).table(),
            final(self).failure() == old(self).failure(),
            final(self).within() == old(self).within(),
            !final(self).poised(),
            !final(self).looks_back(),
            old(self).blocks() > 0 ==> (r matches Some(b) && b == old(self).blocks() - 1 && final(self).aim() == Goal::Last(b)),
            old(self).blocks() == 0 ==> r is None && final(self).aim() is Nothing && final(self).block_no() is None,
    {
        self.back = false;
        self.goal = Goal::Nothing;
        let n = self.r.data_block_count();
        if n == 0 {
            self.valid = false;
            self.block = None;
            return None;
        }
        self.want(Goal::Last(n - 1))
    }

    /// Look for the first entry that is not before `(user_key, seq)`: the block
    /// that this needs. Where every block ends before it, it stands nowhere, but
    /// going back starts from where it last stood.
    pub fn seek(&mut self, user_key: &[u8], seq: u64) -> (r: Option<usize>)
        requires
            old(self).inv(),
        ensures
            final(self).inv(),
            final(self).table() == old(self).table(),
            final(self).failure() == old(self).failure(),
            final(self).within() == old(self).within(),
            final(self).block_no() == old(self).block_no(),
            !final(self).poised(),
            !final(self).looks_back(),
            final(self).target() == (user_key@, seq),
            match r {
                Some(b) => {
                    &&& final(self).aim() == Goal::Seek(b)
                    &&& b < old(self).blocks()
                    &&& !crate::place::place_lt(old(self).table().order(), old(self).table()@.index[b as int].place(), (user_key@, seq))
                    &&& b > 0 ==> crate::place::place_lt(old(self).table().order(), old(self).table()@.index[b - 1].place(), (user_key@, seq))
                },
                None => final(self).aim() is Nothing && (old(self).blocks() > 0 ==> crate::place::place_lt(
                    old(self).table().order(),
                    old(self).table()@.index[old(self).blocks() - 1].place(),
                    (user_key@, seq),
                )),
            },
            crate::sst_index::index_sorted(old(self).table().order(), old(self).table()@.index) ==> crate::sst_index::cuts(
                old(self).table().order(),
                old(self).table()@.index,
                (user_key@, seq),
                match r {
                    Some(b) => b as int,
                    None => old(self).blocks(),
                },
            ),
    {
        self.back = false;
        self.goal = Goal::Nothing;
        self.valid = false;
        self.key = copy_bytes(user_key);
        self.seq = seq;
        let bi = self.r.find_block(user_key, seq);
        if bi >= self.r.data_block_count() {
            return None;
        }
        self.want(Goal::Seek(bi))
    }

    /// Look for the last entry that is not behind `(user_key, seq)`: the block
    /// that this needs. Where every block ends before it, that is the last.
    pub fn seek_for_prev(&mut self, user_key: &[u8], seq: u64) -> (r: Option<usize>)
        requires
            old(self).inv(),
        ensures
            final(self).inv(),
            final(self).table() == old(self).table(),
            final(self).failure() == old(self).failure(),
            final(self).within() == old(self).within(),
            !final(self).poised(),
            old(self).blocks() == 0 ==> r is None && final(self).aim() is Nothing && final(self).block_no() is None,
            old(self).blocks() > 0 ==> (r matches Some(b) && b < old(self).blocks() && ({
                let t = (user_key@, seq);
                if crate::place::place_lt(old(self).table().order(), old(self).table()@.index[b as int].place(), t) {
                    b == old(self).blocks() - 1 && final(self).aim() == Goal::Last(b) && !final(self).looks_back()
                } else {
                    &&& final(self).aim() == Goal::Seek(b) && final(self).looks_back() && final(self).target() == t
                    &&& b > 0 ==> crate::place::place_lt(old(self).table().order(), old(self).table()@.index[b - 1].place(), t)
                }
            })),
    {
        match self.seek(user_key, seq) {
            Some(b) => {
                self.back = true;
                Some(b)
            },
            None => self.seek_to_last(),
        }
    }

    /// Stand nowhere. Where it looked back, go on to the last block: the block
    /// that this needs.
    fn leave(&mut self) -> (r: Option<usize>)
        requires
            old(self).cursor.inv(),
            old(self).cursor.how() == old(self).r@.codec,
            old(self).block matches Some(b) ==> b < old(self).r@.index.len(),
            old(self).back ==> old(self).blocks() > 0,
        ensures
            final(self).inv(),
            final(self).table() == old(self).table(),
            final(self).cursor == old(self).cursor,
            final(self).block == old(self).block,
            final(self).failure() == old(self).failure(),
            final(self).gives_up(old(self).back),
            r == final(self).aim().wanted(),
    {
        self.valid = false;
        self.goal = Goal::Nothing;
        if !self.back {
            return None;
        }
        self.back = false;
        let last = self.r.data_block_count() - 1;
        self.goal = Goal::Last(last);
        Some(last)
    }

    /// Take note of what went wrong, and stand nowhere.
    fn fail(&mut self, e: OndaError) -> (r: Option<usize>)
        requires
            old(self).cursor.inv(),
            old(self).cursor.how() == old(self).r@.codec,
            old(self).block matches Some(b) ==> b < old(self).r@.index.len(),
            old(self).back ==> old(self).blocks() > 0,
        ensures
            final(self).inv(),
            final(self).table() == old(self).table(),
            final(self).cursor == old(self).cursor,
            final(self).failure() == Some(e),
            final(self).gives_up(old(self).back),
            r == final(self).aim().wanted(),
    {
        self.err = Some(e);
        self.leave()
    }

    /// Whether it stands nowhere, and waits for the last block where it looked
    /// back.
    pub open spec fn gives_up(self, back: bool) -> bool {
        &&& !self.poised()
        &&& !self.looks_back()
        &&& if back { self.aim() == Goal::Last((self.blocks() - 1) as usize) } else { self.aim() is Nothing }
    }

    /// Whether it gave up for this fault.
    pub open spec fn gives_up_for(self, f: Fault, back: bool) -> bool {
        self.gives_up(back) && (self.failure() matches Some(e) && crate::format::reports(e, f))
    }

    /// Whether it has come to this entry of block `b`.
    pub open spec fn is_on(self, b: int, at: (Placed, (int, int))) -> bool {
        &&& self.poised()
        &&& self.aim() is Nothing
        &&& !self.looks_back()
        &&& self.block_no() matches Some(x) && x == b
        &&& self.within().entry() == Some(at.0)
        &&& self.within().spot() == at.1
    }

    /// Whether it went one back from the entry at `spot` of block `b`: within
    /// the block, or to the last entry of the block before.
    pub open spec fn went_back(self, failure: Option<OndaError>, b: int, spot: (int, int)) -> bool {
        match crate::sst_cursor::entry_before(self.within().how(), self.within().ents(), self.within().anchors(), spot) {
            None => self.went_to_block_before(failure, b),
            Some(Ok(at)) => self.is_on(b, at) && self.failure() == failure,
            Some(Err(f)) => self.gives_up_for(f, false),
        }
    }

    /// Whether it waits for the block before block `b`, or stands nowhere where
    /// there is none.
    pub open spec fn went_to_block_before(self, failure: Option<OndaError>, b: int) -> bool {
        &&& self.failure() == failure
        &&& !self.poised()
        &&& !self.looks_back()
        &&& if b > 0 { self.aim() == Goal::Last((b - 1) as usize) } else { self.aim() is Nothing }
    }
}

impl<'a, C: Comparator> SstIterator<'a, C> {
    /// Go to the next entry: the block that this needs, where it does.
    pub fn next(&mut self) -> (r: Option<usize>)
        requires
            old(self).inv(),
            old(self).aim() is Nothing,
        ensures
            final(self).inv(),
            final(self).table() == old(self).table(),
            !final(self).looks_back(),
            r == final(self).aim().wanted(),
            final(self).within().same_block(old(self).within()),
            !old(self).poised() ==> r is None && *final(self) == *old(self),
            old(self).poised() ==> ({
                let b = old(self).block_no()->0;
                let was = old(self).within();
                let p = was.entry()->0;
                if p.next >= was.ents().len() {
                    &&& final(self).failure() == old(self).failure() && !final(self).poised()
                    &&& b + 1 < old(self).blocks() ==> (r matches Some(x) && x == b + 1 && final(self).aim() == Goal::First(x))
                    &&& b + 1 >= old(self).blocks() ==> r is None && final(self).block_no() is None
                } else {
                    match crate::sst_block::parse_at(was.how(), was.ents(), p.next, p.key) {
                        Ok(q) => final(self).failure() == old(self).failure() && final(self).is_on(
                            b as int,
                            (q, crate::sst_cursor::spot_behind(was.how(), was.anchors(), was.spot(), p.next)),
                        ),
                        Err(f) => final(self).gives_up_for(f, false),
                    }
                }
            }),
            forall|b: int, j: int| #[trigger]
                old(self).stands(b, j) ==> ({
                    let c = old(self).within();
                    let es = crate::sst_block::entries_of(c.how(), c.ents())->Ok_0;
                    &&& j + 1 < es.len() && crate::sst_cursor::sound(c.how(), c.ents(), c.anchors()) ==> r is None && final(self).stands(b, j + 1)
                    &&& j + 1 == es.len() ==> (if b + 1 < old(self).blocks() {
                        r matches Some(x) && x == b + 1 && final(self).aim() == Goal::First(x)
                    } else {
                        r is None && !final(self).is_valid() && final(self).failure() is None
                    })
                }),
    {
        proof {
            self.cursor.lemma_same_block(self.cursor, self.cursor);
        }
        if !self.valid {
            return None;
        }
        let b = match self.block {
            Some(b) => b,
            None => 0,
        };
        match self.cursor.next() {
            Err(e) => self.fail(e),
            Ok(true) => None,
            Ok(false) => {
                let n = self.r.data_block_count();
                if b + 1 < n {
                    self.want(Goal::First(b + 1))
                } else {
                    self.valid = false;
                    self.block = None;
                    None
                }
            },
        }
    }

    /// Go to the entry before the one it stands on, or last stood on: the block
    /// that this needs, where it does.
    pub fn prev(&mut self) -> (r: Option<usize>)
        requires
            old(self).inv(),
            old(self).aim() is Nothing,
        ensures
            final(self).inv(),
            final(self).table() == old(self).table(),
            !final(self).looks_back(),
            r == final(self).aim().wanted(),
            final(self).within().same_block(old(self).within()),
            old(self).failure() is Some || old(self).block_no() is None ==> r is None && *final(self) == *old(self),
            old(self).failure() is None ==> (old(self).block_no() matches Some(b) ==> {
                let was = old(self).within();
                if was.entry() is Some {
                    final(self).went_back(None, b as int, was.spot())
                } else if was.spot() == (0int, 0int) {
                    final(self).went_to_block_before(None, b as int)
                } else {
                    final(self).gives_up(false) && final(self).failure() is None
                }
            }),
            forall|b: int, j: int| #[trigger]
                old(self).stands(b, j) ==> ({
                    let c = old(self).within();
                    crate::sst_cursor::sound(c.how(), c.ents(), c.anchors()) ==> {
                        &&& final(self).failure() is None
                        &&& j > 0 ==> r is None && final(self).stands(b, j - 1)
                        &&& j == 0 && b > 0 ==> (r matches Some(x) && x == b - 1 && final(self).aim() == Goal::Last(x))
                        &&& j == 0 && b == 0 ==> r is None && !final(self).is_valid()
                    }
                }),
    {
        proof {
            self.cursor.lemma_same_block(self.cursor, self.cursor);
        }
        if self.err.is_some() {
            return None;
        }
        let b = match self.block {
            None => {
                return None;
            },
            Some(b) => b,
        };
        if self.cursor.has_entry() {
            match self.cursor.prev() {
                Err(e) => {
                    return self.fail(e);
                },
                Ok(true) => {
                    self.valid = true;
                    return None;
                },
                Ok(false) => {},
            }
        } else if !self.cursor.at_front() {
            return None;
        }
        if b > 0 {
            self.want(Goal::Last(b - 1))
        } else {
            self.valid = false;
            None
        }
    }

    /// Hand in the block that is waited for, or why it could not be read: the
    /// next block that is needed, where one is.
    pub fn supply(&mut self, read: Result<Vec<u8>, OndaError>) -> (r: Option<usize>)
        requires
            old(self).inv(),
            !(old(self).aim() is Nothing),
        ensures
            final(self).inv(),
            final(self).table() == old(self).table(),
            r == final(self).aim().wanted(),
            match read {
                Err(e) => final(self).failure() == Some(e) && final(self).gives_up(old(self).looks_back()),
                Ok(raw) => match crate::sst_block::split_parts(raw@, old(self).table()@.codec.delta) {
                    None => (final(self).failure() matches Some(e) && e is Corruption) && final(self).gives_up(old(self).looks_back()),
                    Some((ents, restarts)) => {
                        &&& final(self).within().how() == old(self).table()@.codec
                        &&& final(self).within().ents() == ents
                        &&& old(self).table()@.codec.delta ==> crate::sst_cursor::numbers(final(self).within().anchors()) == crate::sst_cursor::restart_numbers(
                            restarts,
                        )
                        &&& final(self).came_from(*old(self), old(self).aim())
                        &&& old(self).failure() is None ==> old(self).lands(*final(self), raw@, ents, restarts)
                    },
                },
            },
    {
        let goal = self.goal;
        self.goal = Goal::Nothing;
        let raw = match read {
            Err(e) => {
                return self.fail(e);
            },
            Ok(raw) => raw,
        };
        let ghost rv = raw@;
        match self.cursor.load(raw) {
            Err(e) => {
                return self.fail(e);
            },
            Ok(()) => {},
        }
        proof {
            if let Some((ents, restarts)) = crate::sst_block::split_parts(rv, self.r@.codec.delta) {
                let c = self.cursor;
                if sound_block(c.how(), ents, crate::sst_cursor::restart_numbers(restarts)) {
                    let es = crate::sst_block::entries_of(c.how(), ents)->Ok_0;
                    if c.how().delta {
                        assert forall|k: int| 0 <= k < c.anchors().len() implies crate::sst_block::has_anchor(c.how(), es, (#[trigger] c.anchors()[k]) as int) by {
                            assert(crate::sst_cursor::numbers(c.anchors())[k] == c.anchors()[k]);
                        }
                    }
                    assert(crate::sst_cursor::sound(c.how(), c.ents(), c.anchors()));
                }
            }
        }
        let ghost ready = *self;
        let r = self.land(goal);
        proof {
            self.lemma_came_from(ready, *old(self), goal);
        }
        r
    }

    /// What it has done depends on what it was to do alone.
    proof fn lemma_came_from(self, a: SstIterator<'a, C>, b: SstIterator<'a, C>, goal: Goal)
        requires
            self.came_from(a, goal),
            a.table() == b.table(),
            a.target() == b.target(),
            a.looks_back() == b.looks_back(),
            a.failure() == b.failure(),
            a.within().spot() == b.within().spot(),
        ensures
            self.came_from(b, goal),
    {
        if let Goal::Seek(x) = goal {
            let c = self.within();
            if exists|n: int, i: int| #[trigger]
                crate::sst_cursor::may_find(a.table().order(), c.how(), c.ents(), c.anchors(), a.target(), n, i) && self.found(
                    a,
                    x as int,
                    crate::sst_cursor::entry_found(c.how(), c.ents(), c.anchors(), n, i),
                ) {
                let (n, i) = choose|n: int, i: int| #[trigger]
                    crate::sst_cursor::may_find(a.table().order(), c.how(), c.ents(), c.anchors(), a.target(), n, i) && self.found(
                        a,
                        x as int,
                        crate::sst_cursor::entry_found(c.how(), c.ents(), c.anchors(), n, i),
                    );
                assert(self.found(b, x as int, crate::sst_cursor::entry_found(c.how(), c.ents(), c.anchors(), n, i)));
            }
        }
    }

    /// Whether it has done with the block that it now holds what `goal` says.
    pub open spec fn came_from(self, was: SstIterator<'a, C>, goal: Goal) -> bool {
        let c = self.within();
        match goal {
            Goal::Nothing => true,
            Goal::First(b) => match crate::sst_block::parse_at(c.how(), c.ents(), 0, Seq::empty()) {
                Ok(p) => self.turned(was, b as int, (p, (0int, 0int))),
                Err(f) => self.gives_up_for(f, was.looks_back()),
            },
            Goal::Last(b) => match crate::sst_cursor::last_entry(c.how(), c.ents(), c.anchors()) {
                None => self.stays_in(was, b as int) && self.gives_up(false),
                Some(Ok(at)) => self.is_on(b as int, at) && self.failure() == was.failure(),
                Some(Err(f)) => self.gives_up_for(f, false),
            },
            Goal::Seek(b) => {
                ||| self.gives_up(was.looks_back()) && exists|k: int| #[trigger]
                    crate::sst_cursor::anchor_blamed(c.how(), c.ents(), c.anchors(), k, self.failure()->0) && self.failure() is Some
                ||| exists|n: int, i: int| #[trigger]
                    crate::sst_cursor::may_find(was.table().order(), c.how(), c.ents(), c.anchors(), was.target(), n, i) && self.found(
                        was,
                        b as int,
                        crate::sst_cursor::entry_found(c.how(), c.ents(), c.anchors(), n, i),
                    )
            },
        }
    }

    /// Whether it is on block `b`, on no entry of it.
    pub open spec fn stays_in(self, was: SstIterator<'a, C>, b: int) -> bool {
        &&& self.block_no() matches Some(x) && x == b
        &&& self.within().entry() is None
        &&& self.within().spot() == was.within().spot()
        &&& self.failure() == was.failure()
    }

    /// Whether it has done with what the search of block `b` found what is to be
    /// done. Where that is nothing the next block is looked at, unless this one
    /// has no entries at all.
    pub open spec fn found(self, was: SstIterator<'a, C>, b: int, found: Option<Result<(Placed, (int, int)), Fault>>) -> bool {
        match found {
            None => if self.within().how().delta && self.within().anchors().len() == 0 {
                self.stays_in(was, b) && self.gives_up(was.looks_back())
            } else if b + 1 < was.blocks() {
                &&& self.aim() == Goal::First((b + 1) as usize)
                &&& self.looks_back() == was.looks_back()
                &&& self.target() == was.target()
                &&& self.failure() == was.failure()
                &&& !self.poised()
            } else {
                &&& self.gives_up(was.looks_back())
                &&& self.failure() == was.failure()
                &&& !was.looks_back() ==> self.block_no() is None
            },
            Some(Ok(at)) => self.turned(was, b, at),
            Some(Err(f)) => self.gives_up_for(f, was.looks_back()),
        }
    }

    /// Whether it has come to an entry of block `b`, and where it looks back and
    /// that entry is behind the target, from there to the one before. Where it
    /// looks back though something went wrong before, it goes to the last block.
    pub open spec fn turned(self, was: SstIterator<'a, C>, b: int, at: (Placed, (int, int))) -> bool {
        if was.looks_back() && was.failure() is Some {
            self.gives_up(true) && self.failure() == was.failure()
        } else if was.looks_back() && crate::place::place_lt(was.table().order(), was.target(), at.0.place()) {
            self.went_back(None, b, at.1)
        } else {
            self.is_on(b, at) && self.failure() == was.failure()
        }
    }

    /// Where it looks back, and has found the first entry that is not before the
    /// target: stay where that is the target, else go one back.
    fn turn(&mut self) -> (r: Option<usize>)
        requires
            old(self).cursor.inv(),
            old(self).cursor.how() == old(self).r@.codec,
            old(self).cursor.entry() is Some,
            old(self).block matches Some(b) && b < old(self).r@.index.len(),
            old(self).goal is Nothing,
            old(self).valid,
        ensures
            final(self).inv(),
            final(self).table() == old(self).table(),
            r == final(self).aim().wanted(),
            final(self).cursor.same_block(old(self).cursor),
            final(self).turned(*old(self), old(self).block->0 as int, (old(self).cursor.entry()->0, old(self).cursor.spot())),
            old(self).err is None ==> ({
                let c = old(self).cursor;
                forall|i: int| #[trigger]
                    c.at_entry(i) && crate::sst_cursor::sound(c.how(), c.ents(), c.anchors()) ==> found_at(
                        *old(self).r,
                        old(self).target(),
                        old(self).back,
                        c.ents(),
                        old(self).block->0 as int,
                        i,
                        *final(self),
                    )
            }),
    {
        proof {
            self.cursor.lemma_same_block(self.cursor, self.cursor);
        }
        if !self.back {
            return None;
        }
        if self.err.is_some() {
            return self.leave();
        }
        self.back = false;
        let ghost was = *self;
        let o = compare_places(
            self.r.comparator(),
            self.cursor.user_key(),
            self.cursor.seq(),
            self.key.as_slice(),
            self.seq,
        );
        let r = if o.is_gt() { self.prev() } else { None };
        proof {
            let c = was.cursor;
            if was.err is None {
                assert forall|i: int| #[trigger] c.at_entry(i) && crate::sst_cursor::sound(c.how(), c.ents(), c.anchors()) implies found_at(
                    *was.r,
                    was.target(),
                    true,
                    c.ents(),
                    was.block->0 as int,
                    i,
                    *self,
                ) by {
                    c.lemma_at_entry(i);
                    assert(was.stands(was.block->0 as int, i));
                }
            }
        }
        r
    }

    /// Whether a block has just been loaded, to do this with.
    spec fn ready(self, goal: Goal) -> bool {
        &&& self.cursor.inv()
        &&& self.cursor.how() == self.r@.codec
        &&& self.block matches Some(b) ==> b < self.r@.index.len()
        &&& self.goal is Nothing
        &&& !self.valid
        &&& self.cursor.entry() is None
        &&& goal.wanted() matches Some(b) && b < self.r@.index.len()
        &&& self.back ==> goal is First || goal is Seek
    }

    /// Look for the target in block `b`, just loaded.
    #[verifier::spinoff_prover]
    #[verifier::rlimit(50)]
    fn land_seek(&mut self, b: usize) -> (r: Option<usize>)
        requires
            old(self).ready(Goal::Seek(b)),
        ensures
            final(self).inv(),
            final(self).table() == old(self).table(),
            r == final(self).aim().wanted(),
            final(self).cursor.same_block(old(self).cursor),
            final(self).came_from(*old(self), Goal::Seek(b)),
            old(self).err is None ==> ({
                let c = old(self).cursor;
                crate::sst_cursor::sound(c.how(), c.ents(), c.anchors()) ==> leads_to(
                    *old(self).r,
                    old(self).target(),
                    old(self).back,
                    Goal::Seek(b),
                    c.ents(),
                    *final(self),
                )
            }),
    {
        let ghost c = self.cursor;
        let ghost ord = self.r.order();
        let ghost t = self.target();
        let sought = self.cursor.seek(self.r.comparator(), self.key.as_slice(), self.seq);
        let ghost blamed = sought is Err && exists|k: int| #[trigger]
            crate::sst_cursor::anchor_blamed(c.how(), c.ents(), c.anchors(), k, sought->Err_0);
        let ghost (n, i) = choose|n: int, i: int| #[trigger]
            crate::sst_cursor::may_find(ord, c.how(), c.ents(), c.anchors(), t, n, i) && self.cursor.came_to(
                c,
                crate::sst_cursor::entry_found(c.how(), c.ents(), c.anchors(), n, i),
                sought,
            );
        let ghost hit = crate::sst_cursor::entry_found(c.how(), c.ents(), c.anchors(), n, i);
        let ghost was = *self;
        let ghost es = crate::sst_block::entries_of(c.how(), c.ents())->Ok_0;
        let ghost ordered = crate::sst_cursor::sound(c.how(), c.ents(), c.anchors()) && crate::sst_block::ascending(ord, es);
        let ghost x = choose|x: int| #[trigger]
            crate::sst_block::first_not_before(ord, es, t, x) && sought->Ok_0 == (x < es.len()) && (x < es.len() ==> was.cursor.at_entry(x));
        assert(ordered ==> sought is Ok && crate::sst_block::first_not_before(ord, es, t, x) && sought->Ok_0 == (x < es.len()) && (x < es.len()
            ==> was.cursor.at_entry(x)));
        match sought {
            Err(e) => {
                let r = self.fail(e);
                proof {
                    self.cursor.lemma_same_block(was.cursor, c);
                    if blamed {
                        let k = choose|k: int| #[trigger] crate::sst_cursor::anchor_blamed(c.how(), c.ents(), c.anchors(), k, e);
                        assert(crate::sst_cursor::anchor_blamed(
                            self.within().how(),
                            self.within().ents(),
                            self.within().anchors(),
                            k,
                            self.failure()->0,
                        ));
                    } else {
                        assert(self.found(*old(self), b as int, hit));
                    }
                }
                r
            },
            Ok(true) => {
                self.block = Some(b);
                self.valid = true;
                let r = self.turn();
                proof {
                    self.cursor.lemma_same_block(was.cursor, c);
                    assert(self.found(*old(self), b as int, hit));
                    if ordered && old(self).err is None {
                        assert(was.cursor.at_entry(x));
                        assert(found_at(*old(self).r, t, old(self).back, c.ents(), b as int, x, *self));
                        assert(leads_to(*old(self).r, t, old(self).back, Goal::Seek(b), c.ents(), *self));
                    }
                }
                r
            },
            Ok(false) => {
                let blocks = self.r.data_block_count();
                self.block = Some(b);
                let r = if self.cursor.is_bare() {
                    self.leave()
                } else if b + 1 < blocks {
                    self.goal = Goal::First(b + 1);
                    Some(b + 1)
                } else {
                    if !self.back {
                        self.block = None;
                    }
                    self.leave()
                };
                proof {
                    self.cursor.lemma_same_block(was.cursor, c);
                    assert(self.found(*old(self), b as int, hit));
                    if ordered && old(self).err is None {
                        if c.how().delta {
                            c.lemma_bare();
                        }
                        assert(leads_to(*old(self).r, t, old(self).back, Goal::Seek(b), c.ents(), *self));
                    }
                }
                r
            },
        }
    }

    /// Do with the block just loaded what it was waited for.
    fn land(&mut self, goal: Goal) -> (r: Option<usize>)
        requires
            old(self).ready(goal),
        ensures
            final(self).inv(),
            final(self).table() == old(self).table(),
            r == final(self).aim().wanted(),
            final(self).cursor.same_block(old(self).cursor),
            final(self).came_from(*old(self), goal),
            old(self).err is None ==> ({
                let c = old(self).cursor;
                crate::sst_cursor::sound(c.how(), c.ents(), c.anchors()) ==> leads_to(
                    *old(self).r,
                    old(self).target(),
                    old(self).back,
                    goal,
                    c.ents(),
                    *final(self),
                )
            }),
    {
        match goal {
            Goal::Nothing => None,
            Goal::First(b) => {
                match self.cursor.to_first() {
                    Err(e) => self.fail(e),
                    Ok(()) => {
                        self.block = Some(b);
                        self.valid = true;
                        let ghost was = *self;
                        let r = self.turn();
                        proof {
                            self.cursor.lemma_same_block(was.cursor, old(self).cursor);
                        }
                        r
                    },
                }
            },
            Goal::Last(b) => {
                match self.cursor.to_last() {
                    Err(e) => self.fail(e),
                    Ok(found) => {
                        self.block = Some(b);
                        self.valid = found;
                        None
                    },
                }
            },
            Goal::Seek(b) => self.land_seek(b),
        }
    }

    /// Where a block that can be read leads to.
    pub open spec fn lands(self, to: SstIterator<'a, C>, raw: Seq<u8>, ents: Seq<u8>, restarts: Seq<u8>) -> bool {
        sound_block(self.table()@.codec, ents, crate::sst_cursor::restart_numbers(restarts)) ==> leads_to(self.table(), self.target(), self.looks_back(), self.aim(), ents, to)
    }

}

/// Where a block of these entries leads to.
pub open spec fn leads_to<'a, C: Comparator>(
    t: Reader<C>,
    target: crate::place::Place,
    back: bool,
    goal: Goal,
    ents: Seq<u8>,
    to: SstIterator<'a, C>,
) -> bool {
    let es = crate::sst_block::entries_of(t@.codec, ents)->Ok_0;
    match goal {
        Goal::Nothing => true,
        Goal::First(b) => es.len() > 0 ==> found_at(t, target, back, ents, b as int, 0, to),
        Goal::Last(b) => if es.len() > 0 {
            to.stands(b as int, es.len() - 1) && to.within().ents() == ents
        } else {
            !to.is_valid() && to.failure() is None && to.aim() is Nothing
        },
        Goal::Seek(b) => crate::sst_block::ascending(t.order(), es) ==> exists|i: int| #[trigger]
            crate::sst_block::first_not_before(t.order(), es, target, i) && (if i < es.len() {
                found_at(t, target, back, ents, b as int, i, to)
            } else if t@.codec.delta && es.len() == 0 && back {
                to.aim() == Goal::Last((t@.index.len() - 1) as usize) && !to.looks_back()
            } else if t@.codec.delta && es.len() == 0 {
                !to.is_valid() && to.failure() is None && to.aim() is Nothing
            } else if b + 1 < t@.index.len() {
                to.aim() == Goal::First((b + 1) as usize) && to.looks_back() == back && to.target() == target
            } else if back {
                to.aim() == Goal::Last((t@.index.len() - 1) as usize) && !to.looks_back()
            } else {
                !to.is_valid() && to.failure() is None && to.aim() is Nothing
            }),
    }
}

/// Where it leads to that entry `i` of block `b` was found: there, or where it
/// looks back and that entry is behind the target, to the one before.
pub open spec fn found_at<'a, C: Comparator>(
    t: Reader<C>,
    target: crate::place::Place,
    back: bool,
    ents: Seq<u8>,
    b: int,
    i: int,
    to: SstIterator<'a, C>,
) -> bool {
    let es = crate::sst_block::entries_of(t@.codec, ents)->Ok_0;
    &&& !to.looks_back()
    &&& if !back || !crate::place::place_lt(t.order(), target, es[i].place()) {
        to.stands(b, i) && to.within().ents() == ents
    } else if i > 0 {
        to.stands(b, i - 1) && to.within().ents() == ents
    } else if b > 0 {
        to.aim() == Goal::Last((b - 1) as usize)
    } else {
        !to.is_valid() && to.failure() is None && to.aim() is Nothing
    }
}

/// Whether a block can be read: all its entries can, and its anchors are
/// entries that stand on their own.
pub open spec fn sound_block(c: Codec, ents: Seq<u8>, anchors: Seq<int>) -> bool {
    match crate::sst_block::entries_of(c, ents) {
        Err(_) => false,
        Ok(es) => c.delta ==> forall|k: int| 0 <= k < anchors.len() ==> crate::sst_block::has_anchor(c, es, #[trigger] anchors[k]),
    }
}

impl<'a, C: Comparator> SstIterator<'a, C> {
    /// The key of the entry.
    pub fn user_key(&self) -> (r: &[u8])
        requires
            self.inv(),
            self.is_valid(),
        ensures
            r@ == (self.within().entry()->0).key,
    {
        self.cursor.user_key()
    }

    /// The first eight bytes of its key, the first the most significant.
    pub fn key_prefix(&self) -> (r: u64)
        requires
            self.inv(),
            self.is_valid(),
        ensures
            r == crate::key_prefix::prefix_value((self.within().entry()->0).key, 0),
    {
        key_prefix8(self.cursor.user_key())
    }

    pub fn seq(&self) -> (r: u64)
        requires
            self.inv(),
            self.is_valid(),
        ensures
            r == (self.within().entry()->0).fields.seq,
    {
        self.cursor.seq()
    }

    pub fn ttl(&self) -> (r: i64)
        requires
            self.inv(),
            self.is_valid(),
        ensures
            r == (self.within().entry()->0).fields.ttl,
    {
        self.cursor.ttl()
    }

    /// Whether the entry deletes its key.
    pub fn is_tombstone(&self) -> (r: bool)
        requires
            self.inv(),
            self.is_valid(),
        ensures
            r == ((self.within().entry()->0).fields.flags & crate::flags::TOMBSTONE != 0),
    {
        self.cursor.is_tombstone()
    }

    /// Whether the entry deletes one put of its key.
    pub fn is_single_delete(&self) -> (r: bool)
        requires
            self.inv(),
            self.is_valid(),
        ensures
            r == ((self.within().entry()->0).fields.flags & crate::flags::SINGLE_DELETE != 0),
    {
        self.cursor.is_single_delete()
    }

    pub fn kind(&self) -> (r: u64)
        requires
            self.inv(),
            self.is_valid(),
        ensures
            r == (self.within().entry()->0).fields.kind,
    {
        self.cursor.kind()
    }

    /// Its value, or where in the value log it is.
    pub fn value(&self) -> (r: StoredValue)
        requires
            self.inv(),
            self.is_valid(),
        ensures
            r@ == crate::sst_block::value_of((self.within().entry()->0).fields),
    {
        self.cursor.value()
    }

    /// Append its value, where it stands in the block: `None`. Else where in
    /// the value log it is, and how long.
    pub fn value_into(&self, out: &mut Vec<u8>) -> (r: Option<(u64, u64)>)
        requires
            self.inv(),
            self.is_valid(),
        ensures
            match crate::sst_block::value_of((self.within().entry()->0).fields) {
                crate::sst_block::StoredValueView::Inline(v) => r is None && final(out)@ == old(out)@ + v,
                crate::sst_block::StoredValueView::Logged(off, len) => r == Some((off, len)) && final(out)@ == old(out)@,
            },
    {
        match self.cursor.value() {
            StoredValue::Inline(v) => {
                append_slice(out, v.as_slice());
                None
            },
            StoredValue::Logged(off, len) => Some((off, len)),
        }
    }

    /// Where in its block the value stands, and how long it is; none for a
    /// value in the value log.
    pub fn value_block_ref(&self) -> (r: Option<(usize, usize)>)
        requires
            self.inv(),
            self.is_valid(),
        ensures
            match r {
                Some((start, len)) => (self.within().entry()->0).fields.flags & crate::flags::HAS_VLOG == 0 && start + len
                    <= self.within().block().len() && self.within().block().subrange(start as int, start + len) == (self.within().entry()->0).fields.value,
                None => (self.within().entry()->0).fields.flags & crate::flags::HAS_VLOG != 0,
            },
    {
        self.cursor.value_block_ref()
    }

    /// Where in its block the key stands, and how long it is; none where keys
    /// are stored in part.
    pub fn key_block_ref(&self) -> (r: Option<(usize, usize)>)
        requires
            self.inv(),
            self.is_valid(),
        ensures
            match r {
                Some((start, len)) => !self.table()@.codec.delta && start + len <= self.within().block().len() && self.within().block().subrange(
                    start as int,
                    start + len,
                ) == (self.within().entry()->0).key,
                None => self.table()@.codec.delta,
            },
    {
        self.cursor.key_block_ref()
    }
}

/// A block of rows that was written can be walked, and gives back its rows: as
/// many, with the same keys and sequences, in the same order.
pub proof fn lemma_written_block_is_walked<C: Comparator>(ord: C, c: Codec, interval: int, rows: Seq<crate::sst_build::Row>)
    requires
        interval > 0,
        crate::sst_table::block_fits(c, interval, rows),
        crate::sst_build::rows_ascend(ord, rows),
    ensures
        crate::sst_block::split_parts(crate::sst_table::block_of(c, interval, rows), c.delta) matches Some((ents, restarts)) && sound_block(
            c,
            ents,
            crate::sst_cursor::restart_numbers(restarts),
        ) && (crate::sst_block::entries_of(c, ents) matches Ok(es) && crate::sst_block::ascending(ord, es) && es.len() == rows.len() && forall|i: int|
            0 <= i < rows.len() ==> (#[trigger] es[i]).place() == rows[i].place()),
{
    crate::sst_build::lemma_block_splits(c, interval, rows);
    crate::sst_build::lemma_block_is_ok(ord, c, interval, rows);
    crate::sst_build::lemma_rows_round_trip(c, interval, rows);
    let ents = crate::sst_build::rows_wire(c, interval, rows);
    let restarts = crate::sst_build::offsets_wire(crate::sst_build::anchors_of(c, interval, rows));
    let es = crate::sst_build::rows_placed(c, interval, rows);
    let v = crate::sst_cursor::restart_numbers(restarts);
    assert forall|k: int| 0 <= k < v.len() implies crate::sst_block::has_anchor(c, es, #[trigger] v[k]) by {
        assert(v[k] == crate::sst_block::restart_at(restarts, k));
    }
    assert forall|i: int| 0 <= i < rows.len() implies (#[trigger] es[i]).place() == rows[i].place() by {}
}

/// How many entries stand before entry `j` of block `b`, where the blocks have
/// so many.
pub open spec fn rank(counts: Seq<nat>, b: int, j: int) -> int
    decreases b,
{
    if b <= 0 { j } else { rank(counts, b - 1, 0) + counts[b - 1] + j }
}

/// Stepping forward goes through the entries one by one: within a block, and
/// from the last entry of a block to the first of the next.
pub proof fn lemma_forward_misses_nothing(counts: Seq<nat>, b: int, j: int)
    requires
        0 <= b < counts.len(),
        0 <= j < counts[b],
    ensures
        j + 1 < counts[b] ==> rank(counts, b, j + 1) == rank(counts, b, j) + 1,
        j + 1 == counts[b] ==> rank(counts, b + 1, 0) == rank(counts, b, j) + 1,
        j > 0 ==> rank(counts, b, j - 1) == rank(counts, b, j) - 1,
        j == 0 && b > 0 ==> rank(counts, b - 1, counts[b - 1] - 1) == rank(counts, b, j) - 1,
        rank(counts, 0, 0) == 0,
{
    lemma_rank_adds(counts, b, j);
    lemma_rank_adds(counts, b, j + 1);
    lemma_rank_adds(counts, b, j - 1);
    if b > 0 {
        lemma_rank_adds(counts, b - 1, counts[b - 1] - 1);
    }
}

proof fn lemma_rank_adds(counts: Seq<nat>, b: int, j: int)
    ensures
        rank(counts, b, j) == rank(counts, b, 0) + j,
{
}

// ---------------------------------------------------------------------------
// Where seeking comes to rest
// ---------------------------------------------------------------------------

/// Seeking forward comes to rest on the first entry of the block that is not
/// before the target.
pub proof fn lemma_seek_rests_on_the_first<'a, C: Comparator>(
    t: Reader<C>,
    target: crate::place::Place,
    b: usize,
    ents: Seq<u8>,
    to: SstIterator<'a, C>,
    j: int,
)
    requires
        leads_to(t, target, false, Goal::Seek(b), ents, to),
        crate::sst_block::entries_of(t@.codec, ents) matches Ok(es) && crate::sst_block::ascending(t.order(), es) && 0 <= j < es.len()
            && !crate::place::place_lt(t.order(), es[j].place(), target) && forall|k: int|
            0 <= k < j ==> crate::place::place_lt(t.order(), (#[trigger] es[k]).place(), target),
    ensures
        to.stands(b as int, j),
        to.within().ents() == ents,
        !to.looks_back(),
{
    let es = crate::sst_block::entries_of(t@.codec, ents)->Ok_0;
    let i = choose|i: int| #[trigger]
        crate::sst_block::first_not_before(t.order(), es, target, i) && (if i < es.len() {
            found_at(t, target, false, ents, b as int, i, to)
        } else if t@.codec.delta && es.len() == 0 {
            !to.is_valid() && to.failure() is None && to.aim() is Nothing
        } else if b + 1 < t@.index.len() {
            to.aim() == Goal::First((b + 1) as usize) && to.looks_back() == false && to.target() == target
        } else {
            !to.is_valid() && to.failure() is None && to.aim() is Nothing
        });
    if i > j {
        assert(crate::place::place_lt(t.order(), es[j].place(), target));
    }
    if i < j {
        assert(crate::place::place_lt(t.order(), es[i].place(), target));
    }
}

/// Seeking backward comes to rest on the last entry of the block that is not
/// behind the target, where one is and some entry is not before it.
pub proof fn lemma_seek_back_rests_on_the_last<'a, C: Comparator>(
    t: Reader<C>,
    target: crate::place::Place,
    b: usize,
    ents: Seq<u8>,
    to: SstIterator<'a, C>,
    j: int,
)
    requires
        leads_to(t, target, true, Goal::Seek(b), ents, to),
        crate::sst_block::entries_of(t@.codec, ents) matches Ok(es) && crate::sst_block::ascending(t.order(), es) && 0 <= j < es.len()
            && !crate::place::place_lt(t.order(), target, es[j].place()) && (forall|k: int|
            j < k < es.len() ==> crate::place::place_lt(t.order(), target, (#[trigger] es[k]).place())) && !crate::place::place_lt(
            t.order(),
            es.last().place(),
            target,
        ),
    ensures
        to.stands(b as int, j),
        to.within().ents() == ents,
        !to.looks_back(),
{
    let es = crate::sst_block::entries_of(t@.codec, ents)->Ok_0;
    crate::place::lemma_place_order(t.order(), true);
    let i = choose|i: int| #[trigger]
        crate::sst_block::first_not_before(t.order(), es, target, i) && (if i < es.len() {
            found_at(t, target, true, ents, b as int, i, to)
        } else if t@.codec.delta && es.len() == 0 {
            to.aim() == Goal::Last((t@.index.len() - 1) as usize) && !to.looks_back()
        } else if b + 1 < t@.index.len() {
            to.aim() == Goal::First((b + 1) as usize) && to.looks_back() == true && to.target() == target
        } else {
            to.aim() == Goal::Last((t@.index.len() - 1) as usize) && !to.looks_back()
        });
    if i == es.len() {
        assert(crate::place::place_lt(t.order(), es[es.len() - 1].place(), target));
    }
    if i > j {
        assert(crate::place::place_lt(t.order(), target, es[i].place()));
        if i > j + 1 {
            assert(crate::place::place_lt(t.order(), es[j + 1].place(), target));
            assert(crate::place::leads(t.order(), true, es[j + 1].place(), target));
            assert(crate::place::leads(t.order(), true, target, es[j + 1].place()));
        }
    } else if i < j {
        assert(crate::place::place_lt(t.order(), es[i].place(), es[j].place()));
        assert(!crate::place::leads(t.order(), true, es[i].place(), target));
        assert(!crate::place::leads(t.order(), true, target, es[j].place()));
        crate::place::lemma_place_bounds(t.order(), target, es[i].place(), es[j].place());
    }
}

/// Going to an end of a block comes to rest on its first entry, or its last.
pub proof fn lemma_ends_are_where_they_should_be<'a, C: Comparator>(
    t: Reader<C>,
    target: crate::place::Place,
    b: usize,
    ents: Seq<u8>,
    to: SstIterator<'a, C>,
    last: bool,
)
    requires
        leads_to(t, target, false, if last { Goal::Last(b) } else { Goal::First(b) }, ents, to),
        crate::sst_block::entries_of(t@.codec, ents) matches Ok(es) && es.len() > 0,
    ensures
        last ==> to.stands(b as int, crate::sst_block::entries_of(t@.codec, ents)->Ok_0.len() - 1),
        !last ==> to.stands(b as int, 0),
        to.within().ents() == ents,
{
}

/// Where an iterator stands it tells of that entry of that block.
pub proof fn lemma_standing_is_on_the_entry<'a, C: Comparator>(it: SstIterator<'a, C>, b: int, j: int)
    requires
        it.stands(b, j),
    ensures
        it.poised(),
        it.failure() is None,
        it.block_no() matches Some(x) && x == b,
        crate::sst_block::entries_of(it.within().how(), it.within().ents()) matches Ok(es) && 0 <= j < es.len() && it.within().entry()
            == Some(es[j]),
{
    it.within().lemma_at_entry(j);
}

} // verus!
