//! One restart run of a delta block, read and kept.

use vstd::prelude::*;

use crate::encoding::append_slice;
use crate::error::OndaError;
use crate::format::Fault;
use crate::sst_block::{decode_step, Codec, Placed};
use crate::sst_entry::decode_delta_anchor;

verus! {

/// How many bytes of keys a run may always keep.
pub const MIN_RUN_ARENA_BYTES: usize = 65536;

/// The entries from `off` up to `end`, where one must end, behind an entry with
/// the key `prev`.
pub open spec fn walk_to(c: Codec, raw: Seq<u8>, off: int, prev: Seq<u8>, end: int) -> Result<Seq<Placed>, Fault>
    decreases (if off < end { end - off } else { 0 }),
{
    if off >= end {
        if off == end { Ok(Seq::empty()) } else { Err(Fault::Corrupt) }
    } else {
        match crate::sst_block::parse_at(c, raw, off, prev) {
            Err(f) => Err(f),
            Ok(p) => if p.next <= off {
                Err(Fault::Corrupt)
            } else {
                match walk_to(c, raw, p.next, p.key, end) {
                    Err(f) => Err(f),
                    Ok(more) => Ok(seq![p] + more),
                }
            },
        }
    }
}

/// The entries of the run from `start` to `end`, whose first stands on its own.
pub open spec fn run_of(c: Codec, raw: Seq<u8>, start: int, end: int) -> Result<Seq<Placed>, Fault> {
    if start >= end {
        walk_to(c, raw, start, Seq::empty(), end)
    } else if start >= raw.len() {
        Err(Fault::Corrupt)
    } else {
        match crate::sst_entry::parse_anchor(raw.skip(start)) {
            Err(f) => Err(f),
            Ok(_) => walk_to(c, raw, start, Seq::empty(), end),
        }
    }
}

/// The bytes of all keys, back to back.
pub open spec fn keys_of(es: Seq<Placed>) -> Seq<u8>
    decreases es.len(),
{
    if es.len() == 0 { Seq::empty() } else { keys_of(es.drop_last()) + es.last().key }
}

/// The entries of a run: always their offsets and sequences, and their keys
/// unless those are too many bytes.
#[derive(Debug)]
pub struct RunCursor {
    at: Option<usize>,
    starts: Vec<usize>,
    seqs: Vec<u64>,
    keys: Vec<u8>,
    key_ends: Vec<usize>,
    scratch: Vec<u8>,
    overflowed: bool,
    overflows: u64,
}

impl RunCursor {
    /// The run that is held.
    pub closed spec fn held(&self) -> Option<usize> {
        self.at
    }

    pub closed spec fn count(&self) -> int {
        self.starts@.len() as int
    }

    /// Whether the keys were too many bytes to keep.
    pub closed spec fn has_overflowed(&self) -> bool {
        self.overflowed
    }

    pub closed spec fn times_overflowed(&self) -> u64 {
        self.overflows
    }

    /// Whether the cursor holds these entries.
    pub closed spec fn holds(&self, es: Seq<Placed>) -> bool {
        &&& self.starts@.len() == es.len()
        &&& self.seqs@.len() == es.len()
        &&& forall|i: int| 0 <= i < es.len() ==> #[trigger] self.starts@[i] == es[i].off
        &&& forall|i: int| 0 <= i < es.len() ==> #[trigger] self.seqs@[i] == es[i].fields.seq
        &&& !self.overflowed ==> self.keys@ == keys_of(es) && self.key_ends@.len() == es.len() && forall|i: int|
            0 <= i < es.len() ==> #[trigger] self.key_ends@[i] == keys_of(es.take(i + 1)).len()
    }

    pub fn new() -> (r: RunCursor)
        ensures
            r.held() is None,
            r.holds(Seq::empty()),
            r.count() == 0,
            r.times_overflowed() == 0,
            !r.has_overflowed(),
    {
        let r = RunCursor {
            at: None,
            starts: Vec::new(),
            seqs: Vec::new(),
            keys: Vec::new(),
            key_ends: Vec::new(),
            scratch: Vec::new(),
            overflowed: false,
            overflows: 0,
        };
        assert(r.keys@ =~= keys_of(Seq::empty()));
        r
    }

    /// Hold nothing.
    pub fn reset(&mut self)
        ensures
            final(self).held() is None,
            final(self).holds(Seq::empty()),
            final(self).count() == 0,
            !final(self).has_overflowed(),
            final(self).times_overflowed() == old(self).times_overflowed(),
    {
        self.at = None;
        self.starts.clear();
        self.seqs.clear();
        self.keys.clear();
        self.key_ends.clear();
        self.overflowed = false;
        assert(self.keys@ =~= keys_of(Seq::empty()));
    }

    /// Whether it is this run that is held.
    pub fn is_at(&self, run: usize) -> (r: bool)
        ensures
            r == (self.held() == Some(run)),
    {
        match self.at {
            None => false,
            Some(x) => x == run,
        }
    }

    pub fn len(&self) -> (r: usize)
        ensures
            r == self.count(),
    {
        self.starts.len()
    }

    pub fn overflowed(&self) -> (r: bool)
        ensures
            r == self.has_overflowed(),
    {
        self.overflowed
    }

    /// How often the keys of a run were too many bytes to keep.
    pub fn overflows(&self) -> (r: u64)
        ensures
            r == self.times_overflowed(),
    {
        self.overflows
    }

    /// Where entry `i` stands.
    pub fn start(&self, i: usize) -> (r: usize)
        requires
            i < self.count(),
        ensures
            forall|es: Seq<Placed>| #[trigger] self.holds(es) ==> r == es[i as int].off,
    {
        self.starts[i]
    }

    /// The sequence of entry `i`.
    pub fn seq(&self, i: usize) -> (r: u64)
        requires
            i < self.count(),
            exists|es: Seq<Placed>| #[trigger] self.holds(es),
        ensures
            forall|es: Seq<Placed>| #[trigger] self.holds(es) ==> r == es[i as int].fields.seq,
    {
        self.seqs[i]
    }

    /// The key of entry `i`.
    pub fn key(&self, i: usize) -> (r: &[u8])
        requires
            i < self.count(),
            !self.has_overflowed(),
            exists|es: Seq<Placed>| #[trigger] self.holds(es),
        ensures
            forall|es: Seq<Placed>| #[trigger] self.holds(es) ==> r@ == es[i as int].key,
    {
        let ghost es = choose|es: Seq<Placed>| #[trigger] self.holds(es);
        proof {
            lemma_key_span(es, i as int);
        }
        let start = if i == 0 { 0 } else { self.key_ends[i - 1] };
        let end = self.key_ends[i];
        let n = self.keys.len();
        assert(end == keys_of(es.take(i + 1)).len());
        assert(start == keys_of(es.take(i as int)).len()) by {
            if i == 0 {
                assert(es.take(0) =~= Seq::empty());
            }
        }
        let r = &self.keys.as_slice()[start..end];
        proof {
            assert forall|fs: Seq<Placed>| #[trigger] self.holds(fs) implies r@ == fs[i as int].key by {
                lemma_key_span(fs, i as int);
                if i == 0 {
                    assert(fs.take(0) =~= Seq::empty());
                } else {
                    assert(self.key_ends@[i - 1] == keys_of(fs.take(i as int)).len());
                }
                assert(self.key_ends@[i as int] == keys_of(fs.take(i + 1)).len());
            }
        }
        r
    }

    /// Keep the key just read, unless that would be more than `bound` bytes in
    /// all: then keep no key of this run.
    fn keep_key(&mut self, bound: usize, Ghost(es): Ghost<Seq<Placed>>, Ghost(p): Ghost<Placed>)
        requires
            old(self).starts@.len() == es.len() + 1,
            old(self).scratch@ == p.key,
            !old(self).overflowed ==> old(self).keys@ == keys_of(es) && old(self).keys@.len() <= bound && old(self).key_ends@.len() == es.len()
                && forall|i: int| 0 <= i < es.len() ==> #[trigger] old(self).key_ends@[i] == keys_of(es.take(i + 1)).len(),
            old(self).overflowed ==> keys_of(es).len() > bound,
        ensures
            final(self).starts == old(self).starts,
            final(self).seqs == old(self).seqs,
            final(self).at == old(self).at,
            final(self).scratch == old(self).scratch,
            final(self).overflowed == (keys_of(es.push(p)).len() > bound),
            final(self).overflows == (if final(self).overflowed && !old(self).overflowed && old(self).overflows < u64::MAX {
                (old(self).overflows + 1) as u64
            } else {
                old(self).overflows
            }),
            !final(self).overflowed ==> final(self).keys@ == keys_of(es.push(p)) && final(self).keys@.len() <= bound && final(self).key_ends@.len()
                == es.len() + 1 && forall|i: int| 0 <= i < es.len() + 1 ==> #[trigger] final(self).key_ends@[i] == keys_of(es.push(p).take(i + 1)).len(),
    {
        proof {
            assert(es.push(p).drop_last() =~= es);
            assert(keys_of(es.push(p)) == keys_of(es) + p.key);
        }
        if !self.overflowed {
            if self.scratch.len() > bound - self.keys.len() {
                self.overflowed = true;
                if self.overflows < u64::MAX {
                    self.overflows = self.overflows + 1;
                }
                self.keys.clear();
                self.key_ends.clear();
            } else {
                append_slice(&mut self.keys, self.scratch.as_slice());
                let e = self.keys.len();
                let ghost ends = self.key_ends@;
                self.key_ends.push(e);
                proof {
                    assert forall|i: int| 0 <= i < es.len() + 1 implies #[trigger] self.key_ends@[i] == keys_of(es.push(p).take(i + 1)).len() by {
                        if i < es.len() {
                            assert(es.push(p).take(i + 1) =~= es.take(i + 1));
                            assert(self.key_ends@[i] == ends[i]);
                        } else {
                            assert(es.push(p).take(i + 1) =~= es.push(p));
                        }
                    }
                }
            }
        }
    }

    /// Read the run from `start` to `end` of a block of entries, and keep its
    /// keys where they are at most `bound` bytes. It must begin with an entry
    /// that stands on its own and end with the end of an entry.
    pub fn materialize(&mut self, run: usize, c: Codec, entries: &[u8], start: usize, end: usize, bound: usize) -> (r: Result<(), OndaError>)
        requires
            c.delta,
            end <= entries@.len(),
        ensures
            match run_of(c, entries@, start as int, end as int) {
                Ok(es) => {
                    &&& r is Ok
                    &&& final(self).held() == Some(run)
                    &&& final(self).count() == es.len()
                    &&& final(self).holds(es)
                    &&& final(self).has_overflowed() == (keys_of(es).len() > bound)
                    &&& final(self).times_overflowed() == (if final(self).has_overflowed() && old(self).times_overflowed() < u64::MAX {
                        old(self).times_overflowed() + 1
                    } else {
                        old(self).times_overflowed() as int
                    })
                },
                Err(f) => r is Err && crate::format::reports(r->Err_0, f) && final(self).held() is None,
            },
    {
        self.reset();
        self.scratch.clear();
        if start < end {
            let _ = decode_delta_anchor(entries, start)?;
        }
        let ghost whole = walk_to(c, entries@, start as int, Seq::empty(), end as int);
        let ghost mut es: Seq<Placed> = Seq::empty();
        let ghost times = self.overflows;
        let mut off = start;
        proof {
            assert(self.scratch@ =~= Seq::empty());
            assert(run_of(c, entries@, start as int, end as int) == whole);
        }
        while off < end
            invariant
                c.delta,
                end <= entries@.len(),
                self.at is None,
                run_of(c, entries@, start as int, end as int) == whole,
                whole == (match walk_to(c, entries@, off as int, self.scratch@, end as int) {
                    Ok(more) => Ok(es + more),
                    Err(f) => Err(f),
                }),
                self.starts@.len() == es.len(),
                self.seqs@.len() == es.len(),
                forall|i: int| 0 <= i < es.len() ==> #[trigger] self.starts@[i] == es[i].off,
                forall|i: int| 0 <= i < es.len() ==> #[trigger] self.seqs@[i] == es[i].fields.seq,
                self.overflowed == (keys_of(es).len() > bound),
                self.overflows == (if self.overflowed && times < u64::MAX { (times + 1) as u64 } else { times }),
                !self.overflowed ==> self.keys@ == keys_of(es) && self.key_ends@.len() == es.len() && forall|i: int|
                    0 <= i < es.len() ==> #[trigger] self.key_ends@[i] == keys_of(es.take(i + 1)).len(),
                times == old(self).overflows,
            decreases (if off < end { end - off } else { 0 }),
        {
            let ghost prev = self.scratch@;
            let (d, next) = match decode_step(c, entries, off, &mut self.scratch) {
                Err(e) => {
                    return Err(e);
                },
                Ok(x) => x,
            };
            let ghost p = crate::sst_block::parse_at(c, entries@, off as int, prev)->Ok_0;
            let ghost o0 = self.overflowed;
            let ghost t0 = self.overflows;
            self.starts.push(off);
            self.seqs.push(d.seq);
            self.keep_key(bound, Ghost(es), Ghost(p));
            proof {
                let rest = walk_to(c, entries@, p.next, p.key, end as int);
                if let Ok(more) = rest {
                    assert(es + (seq![p] + more) =~= es.push(p) + more);
                }
                assert(es.push(p).drop_last() =~= es);
                es = es.push(p);
            }
            off = next;
        }
        if off != end {
            return Err(OndaError::Corruption(crate::text::join3("sst: ", "delta entry crosses a restart or block boundary", "")));
        }
        proof {
            assert(es + Seq::<Placed>::empty() =~= es);
        }
        self.at = Some(run);
        Ok(())
    }
}

/// Where the key of an entry stands among all keys.
proof fn lemma_key_span(es: Seq<Placed>, i: int)
    requires
        0 <= i < es.len(),
    ensures
        keys_of(es.take(i)).len() <= keys_of(es.take(i + 1)).len() <= keys_of(es).len(),
        keys_of(es).subrange(keys_of(es.take(i)).len() as int, keys_of(es.take(i + 1)).len() as int) == es[i].key,
    decreases es.len(),
{
    assert(es.take(i + 1).drop_last() =~= es.take(i));
    assert(es.take(i + 1).last() == es[i]);
    if i == es.len() - 1 {
        assert(es.take(i + 1) =~= es);
        assert(keys_of(es).subrange(keys_of(es.take(i)).len() as int, keys_of(es).len() as int) =~= es[i].key);
    } else {
        let front = es.drop_last();
        lemma_key_span(front, i);
        assert(front.take(i) =~= es.take(i));
        assert(front.take(i + 1) =~= es.take(i + 1));
        let a = keys_of(es.take(i)).len() as int;
        let b = keys_of(es.take(i + 1)).len() as int;
        assert(keys_of(es).subrange(a, b) =~= keys_of(front).subrange(a, b));
    }
}

/// The entries of a run stand end to end: the first at its start, each of the
/// others where the one before it ends, and the last ends at its end.
pub proof fn lemma_run_stands_end_to_end(c: Codec, raw: Seq<u8>, off: int, prev: Seq<u8>, end: int, i: int)
    requires
        walk_to(c, raw, off, prev, end) is Ok,
    ensures
        ({
            let es = walk_to(c, raw, off, prev, end)->Ok_0;
            &&& es.len() == 0 <==> off == end
            &&& 0 <= i < es.len() ==> crate::sst_block::parse_at(
                c,
                raw,
                if i == 0 { off } else { es[i - 1].next },
                if i == 0 { prev } else { es[i - 1].key },
            ) == Ok::<Placed, Fault>(es[i])
            &&& es.len() > 0 ==> es.last().next == end
        }),
    decreases (if off < end { end - off } else { 0 }),
{
    if off < end {
        let p = crate::sst_block::parse_at(c, raw, off, prev)->Ok_0;
        let more = walk_to(c, raw, p.next, p.key, end)->Ok_0;
        let es = walk_to(c, raw, off, prev, end)->Ok_0;
        assert(es =~= seq![p] + more);
        lemma_run_stands_end_to_end(c, raw, p.next, p.key, end, i - 1);
        if 0 < i < es.len() {
            assert(es[i] == more[i - 1]);
            if i > 1 {
                assert(es[i - 1] == more[i - 2]);
            }
        }
        if more.len() > 0 {
            assert(es.last() == more.last());
        }
    }
}

/// The keys of a run lie one behind the other, each in full.
pub proof fn lemma_keys_lie_in_full(es: Seq<Placed>, i: int)
    requires
        0 <= i < es.len(),
    ensures
        keys_of(es.take(i)) + es[i].key == keys_of(es.take(i + 1)),
        keys_of(es.take(0)).len() == 0,
{
    assert(es.take(i + 1).drop_last() =~= es.take(i));
    assert(es.take(i + 1).last() == es[i]);
}

} // verus!
