//! Read snapshots: a sequence stays readable while a handle to it is alive.

use vstd::prelude::*;

use crate::db::DB;
use crate::error::OndaError;

verus! {

/// A pinned sequence, and how many handles share the pin.
#[derive(Debug, Clone, Copy)]
pub struct Pin {
    pub id: u64,
    pub seq: u64,
    pub handles: usize,
}

/// The pins of a database.
#[derive(Debug)]
pub struct SnapshotPins {
    pins: Vec<Pin>,
    next: u64,
}

/// A read snapshot of a database.
#[derive(Debug)]
pub struct SnapshotHandle {
    db: u64,
    pin: u64,
    seq: u64,
}

/// Whether `seq` is the least pinned sequence.
pub open spec fn is_oldest(v: Seq<Pin>, seq: u64) -> bool {
    &&& exists|i: int| 0 <= i < v.len() && (#[trigger] v[i]).seq == seq
    &&& forall|i: int| 0 <= i < v.len() ==> seq <= (#[trigger] v[i]).seq
}

/// The place of a pin.
pub open spec fn pin_at(v: Seq<Pin>, id: u64, i: int) -> bool {
    0 <= i < v.len() && v[i].id == id
}

impl SnapshotHandle {
    /// The database that the snapshot is of.
    pub closed spec fn owner(&self) -> u64 {
        self.db
    }

    /// The pin that the handle shares.
    pub closed spec fn pin_id(&self) -> u64 {
        self.pin
    }

    pub closed spec fn at(&self) -> u64 {
        self.seq
    }

    /// The sequence that the snapshot reads at.
    pub fn seq(&self) -> (r: u64)
        ensures
            r == self.at(),
    {
        self.seq
    }

    /// Refuse a handle of another database.
    pub fn check_owner(&self, db: &DB) -> (r: Result<(), OndaError>)
        ensures
            r is Ok <==> self.owner() == db.id,
            r is Err ==> r->Err_0 is InvalidArgs,
    {
        if self.db == db.id {
            Ok(())
        } else {
            Err(OndaError::InvalidArgs(crate::text::join3("snapshot handle ", "belongs to a different database", "")))
        }
    }
}

impl SnapshotPins {
    pub closed spec fn view(&self) -> Seq<Pin> {
        self.pins@
    }

    /// The number of the pin that comes next.
    pub closed spec fn next_id(&self) -> u64 {
        self.next
    }

    /// Every pin is shared by some handle, and no two have the same number.
    pub open spec fn inv(&self) -> bool {
        &&& forall|i: int| 0 <= i < self@.len() ==> (#[trigger] self@[i]).handles > 0 && self@[i].id < self.next_id()
        &&& forall|i: int, j: int| 0 <= i < j < self@.len() ==> (#[trigger] self@[i]).id < (#[trigger] self@[j]).id
    }

    /// Whether a handle is one to a pin of these.
    pub open spec fn knows(&self, h: SnapshotHandle) -> bool {
        exists|i: int| #[trigger] pin_at(self@, h.pin_id(), i) && self@[i].seq == h.at()
    }

    /// Nothing is pinned.
    pub fn new() -> (r: SnapshotPins)
        ensures
            r.inv(),
            r@.len() == 0,
            r.next_id() == 0,
    {
        SnapshotPins { pins: Vec::new(), next: 0 }
    }

    /// Pin a sequence.
    pub fn acquire(&mut self, db: u64, seq: u64) -> (r: SnapshotHandle)
        requires
            old(self).inv(),
            old(self).next_id() < u64::MAX,
        ensures
            final(self).inv(),
            final(self).next_id() == old(self).next_id() + 1,
            final(self)@ == old(self)@.push(Pin { id: old(self).next_id(), seq, handles: 1 }),
            r.owner() == db,
            r.at() == seq,
            r.pin_id() == old(self).next_id(),
            final(self).knows(r),
            forall|x: SnapshotHandle| #[trigger] old(self).knows(x) ==> final(self).knows(x),
    {
        let id = self.next;
        self.pins.push(Pin { id, seq, handles: 1 });
        self.next = id + 1;
        let r = SnapshotHandle { db, pin: id, seq };
        proof {
            let v0 = old(self)@;
            let v = self@;
            assert(pin_at(v, r.pin_id(), v.len() - 1));
            assert(v[v.len() - 1].seq == r.at());
            assert forall|i: int| 0 <= i < v.len() implies (#[trigger] v[i]).handles > 0 && v[i].id < self.next_id() by {
                if i < v0.len() {
                    assert(v[i] == v0[i]);
                }
            }
            assert forall|x: SnapshotHandle| #[trigger] old(self).knows(x) implies self.knows(x) by {
                let i = choose|i: int| #[trigger] pin_at(v0, x.pin_id(), i) && v0[i].seq == x.at();
                assert(pin_at(v, x.pin_id(), i) && v[i].seq == x.at());
            }
            assert forall|i: int, j: int| 0 <= i < j < v.len() implies (#[trigger] v[i]).id < (#[trigger] v[j]).id by {
                assert(v[i] == v0[i]);
                if j < v0.len() {
                    assert(v[j] == v0[j]);
                }
            }
        }
        r
    }

    fn find(&self, id: u64) -> (r: Option<usize>)
        ensures
            match r {
                Some(i) => pin_at(self@, id, i as int),
                None => forall|i: int| 0 <= i < self@.len() ==> (#[trigger] self@[i]).id != id,
            },
    {
        let mut i: usize = 0;
        while i < self.pins.len()
            invariant
                i <= self.pins@.len(),
                forall|k: int| 0 <= k < i ==> (#[trigger] self.pins@[k]).id != id,
            decreases self.pins@.len() - i,
        {
            if self.pins[i].id == id {
                return Some(i);
            }
            i += 1;
        }
        None
    }

    /// Another handle to the same pin.
    pub fn share(&mut self, h: &SnapshotHandle) -> (r: SnapshotHandle)
        requires
            old(self).inv(),
            old(self).knows(*h),
            forall|i: int| 0 <= i < old(self)@.len() ==> (#[trigger] old(self)@[i]).handles < usize::MAX,
        ensures
            final(self).inv(),
            final(self).next_id() == old(self).next_id(),
            r.owner() == h.owner(),
            r.at() == h.at(),
            r.pin_id() == h.pin_id(),
            exists|i: int| #[trigger]
                pin_at(old(self)@, h.pin_id(), i) && final(self)@ == old(self)@.update(
                    i,
                    Pin { handles: (old(self)@[i].handles + 1) as usize, ..old(self)@[i] },
                ),
            final(self).knows(r),
            forall|x: SnapshotHandle| #[trigger] old(self).knows(x) ==> final(self).knows(x),
    {
        match self.find(h.pin) {
            None => {
                proof {
                    let i = choose|i: int| #[trigger] pin_at(self@, h.pin_id(), i) && self@[i].seq == h.at();
                    assert(self@[i].id != h.pin_id());
                }
            },
            Some(i) => {
                let p = self.pins[i];
                self.pins.set(i, Pin { id: p.id, seq: p.seq, handles: p.handles + 1 });
                assert(pin_at(old(self)@, h.pin_id(), i as int));
                proof {
                    let v0 = old(self)@;
                    let v = self@;
                    assert forall|x: SnapshotHandle| #[trigger] old(self).knows(x) implies self.knows(x) by {
                        let j = choose|j: int| #[trigger] pin_at(v0, x.pin_id(), j) && v0[j].seq == x.at();
                        assert(pin_at(v, x.pin_id(), j) && v[j].seq == x.at());
                    }
                }
            },
        }
        SnapshotHandle { db: h.db, pin: h.pin, seq: h.seq }
    }

    /// Give a handle back. The pin goes with the last of its handles.
    pub fn release(&mut self, h: SnapshotHandle)
        requires
            old(self).inv(),
            old(self).knows(h),
        ensures
            final(self).inv(),
            final(self).next_id() == old(self).next_id(),
            exists|i: int| #[trigger]
                pin_at(old(self)@, h.pin_id(), i) && final(self)@ == (if old(self)@[i].handles == 1 {
                    old(self)@.remove(i)
                } else {
                    old(self)@.update(i, Pin { handles: (old(self)@[i].handles - 1) as usize, ..old(self)@[i] })
                }),
            forall|x: SnapshotHandle, i: int|
                #![trigger old(self).knows(x), pin_at(old(self)@, h.pin_id(), i)]
                old(self).knows(x) && pin_at(old(self)@, h.pin_id(), i) && (x.pin_id() != h.pin_id()
                    || old(self)@[i].handles > 1) ==> final(self).knows(x),
    {
        let ghost v0 = self@;
        match self.find(h.pin) {
            None => {
                proof {
                    let i = choose|i: int| #[trigger] pin_at(self@, h.pin_id(), i) && self@[i].seq == h.at();
                    assert(self@[i].id != h.pin_id());
                }
            },
            Some(i) => {
                assert(pin_at(v0, h.pin_id(), i as int));
                let p = self.pins[i];
                if p.handles == 1 {
                    self.pins.remove(i);
                    proof {
                        let v = self@;
                        assert(v =~= v0.remove(i as int));
                        assert forall|a: int, b: int| 0 <= a < b < v.len() implies (#[trigger] v[a]).id < (#[trigger] v[b]).id by {
                            let a0 = if a < i { a } else { a + 1 };
                            let b0 = if b < i { b } else { b + 1 };
                            assert(v[a] == v0[a0] && v[b] == v0[b0]);
                        }
                        assert forall|a: int| 0 <= a < v.len() implies (#[trigger] v[a]).handles > 0 && v[a].id < self.next_id() by {
                            let a0 = if a < i { a } else { a + 1 };
                            assert(v[a] == v0[a0]);
                        }
                    }
                } else {
                    self.pins.set(i, Pin { id: p.id, seq: p.seq, handles: p.handles - 1 });
                }
                proof {
                    let v = self@;
                    assert forall|x: SnapshotHandle, k: int|
                        #![trigger old(self).knows(x), pin_at(v0, h.pin_id(), k)]
                        old(self).knows(x) && pin_at(v0, h.pin_id(), k) && (x.pin_id() != h.pin_id()
                            || v0[k].handles > 1) implies self.knows(x) by {
                        assert(k == i) by {
                            if k < i {
                                assert(v0[k].id < v0[i as int].id);
                            } else if i < k {
                                assert(v0[i as int].id < v0[k].id);
                            }
                        }
                        let j = choose|j: int| #[trigger] pin_at(v0, x.pin_id(), j) && v0[j].seq == x.at();
                        let to = if p.handles == 1 && i < j { j - 1 } else { j };
                        assert(pin_at(v, x.pin_id(), to) && v[to].seq == x.at());
                    }
                }
            },
        }
    }

    /// The least pinned sequence: what compaction must keep readable.
    pub fn oldest(&self) -> (r: Option<u64>)
        ensures
            match r {
                None => self@.len() == 0,
                Some(s) => is_oldest(self@, s),
            },
    {
        if self.pins.len() == 0 {
            return None;
        }
        let mut best = self.pins[0].seq;
        let mut i: usize = 1;
        while i < self.pins.len()
            invariant
                1 <= i <= self.pins@.len(),
                exists|k: int| 0 <= k < i && (#[trigger] self.pins@[k]).seq == best,
                forall|k: int| 0 <= k < i ==> best <= (#[trigger] self.pins@[k]).seq,
            decreases self.pins@.len() - i,
        {
            let s = self.pins[i].seq;
            if s < best {
                best = s;
            }
            assert(self.pins@[i as int].seq == s);
            i += 1;
        }
        Some(best)
    }

    /// A handle that is alive keeps its sequence readable: the least pinned
    /// sequence does not exceed it.
    pub proof fn lemma_pin_is_kept(&self, h: SnapshotHandle, oldest: u64)
        requires
            self.knows(h),
            is_oldest(self@, oldest),
        ensures
            oldest <= h.at(),
    {
        let i = choose|i: int| #[trigger] pin_at(self@, h.pin_id(), i) && self@[i].seq == h.at();
        assert(oldest <= self@[i].seq);
    }

    /// A pin that is released by one of several handles stays for the others.
    pub proof fn lemma_pin_outlives_a_handle(v: Seq<Pin>, i: int, w: Seq<Pin>)
        requires
            0 <= i < v.len(),
            v[i].handles > 1,
            w == v.update(i, Pin { handles: (v[i].handles - 1) as usize, ..v[i] }),
        ensures
            pin_at(w, v[i].id, i) && w[i].seq == v[i].seq,
    {
    }
}

impl DB {
    /// Pin a snapshot at what is visible now, and at least at what this thread
    /// committed last.
    pub fn snapshot(&mut self, last_commit: u64) -> (r: SnapshotHandle)
        requires
            old(self).snapshots.inv(),
            old(self).snapshots.next_id() < u64::MAX,
        ensures
            final(self).snapshots.inv(),
            final(self).snapshots.knows(r),
            r.owner() == old(self).id,
            r.at() == (if last_commit > old(self).visible_seq { last_commit } else { old(self).visible_seq }),
            final(self).snapshots@ == old(self).snapshots@.push(Pin { id: r.pin_id(), seq: r.at(), handles: 1 }),
            *final(self) == (DB { snapshots: final(self).snapshots, ..*old(self) }),
    {
        let seq = if last_commit > self.visible_seq { last_commit } else { self.visible_seq };
        let id = self.id;
        self.snapshots.acquire(id, seq)
    }
}

/// The oldest pin is the least sequence that is pinned: whatever is older than
/// it, nobody can see.
pub proof fn lemma_oldest_is_the_least(v: Seq<Pin>, a: u64, b: u64)
    requires
        is_oldest(v, a),
    ensures
        is_oldest(v, b) ==> a == b,
        v.map_values(|p: Pin| p.seq).contains(a),
        forall|i: int| 0 <= i < v.len() ==> a <= (#[trigger] v[i]).seq,
        v.push(Pin { id: 0, seq: b, handles: 1 }).len() > 0 ==> is_oldest(
            v.push(Pin { id: 0, seq: b, handles: 1 }),
            if b < a { b } else { a },
        ),
{
    let i = choose|i: int| 0 <= i < v.len() && (#[trigger] v[i]).seq == a;
    assert(v.map_values(|p: Pin| p.seq)[i] == a);
    if is_oldest(v, b) {
        let j = choose|j: int| 0 <= j < v.len() && (#[trigger] v[j]).seq == b;
        assert(v[i].seq == a && v[j].seq == b);
    }
    let w = v.push(Pin { id: 0, seq: b, handles: 1 });
    assert(w[v.len() as int].seq == b);
    assert(w[i] == v[i]);
}

} // verus!
