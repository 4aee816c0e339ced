//! Prepared transactions: what is held in memory between a durable prepare and
//! the decision on it.
//!
//! The registry knows every undecided prepare by its id and by each key that
//! it reserves. Nothing here ever aborts a prepare on its own.

use vstd::prelude::*;

use crate::comparator::{compare_bytes, Comparator};
use crate::encoding::{bytes_eq, copy_bytes};
use crate::error::OndaError;
use crate::text::with_number;
use crate::wal::Record;

pub use crate::wal_gen::WalGenState;

verus! {

/// One write of a prepared transaction: offset and length of its key and of
/// its value in the transaction's buffer.
#[derive(Debug, Clone, Copy)]
pub struct PreparedWrite {
    pub cf_id: u64,
    pub key: (usize, usize),
    pub value: (usize, usize),
    pub ttl: i64,
    pub kind: u64,
}

/// One undecided prepared transaction.
#[derive(Debug)]
pub struct PreparedEntry {
    pub id: [u8; 16],
    pub cf_ids: Vec<u64>,
    pub buf: Vec<u8>,
    pub writes: Vec<PreparedWrite>,
    /// When it was prepared, in nanoseconds.
    pub prepared_at: i64,
    /// What it is charged for.
    pub bytes: usize,
    /// The log generation that holds its prepare record.
    pub prepare_gen: u64,
}

/// A reserved key: the column family's durable id and the user key.
pub type Slot = (u64, Seq<u8>);

pub open spec fn part_of(buf: Seq<u8>, range: (usize, usize)) -> Seq<u8> {
    buf.subrange(range.0 as int, range.0 + range.1)
}

fn part(buf: &Vec<u8>, range: (usize, usize)) -> (r: &[u8])
    requires
        range.0 + range.1 <= buf@.len(),
    ensures
        r@ == part_of(buf@, range),
{
    let n = buf.len();
    let b = buf.as_slice();
    assert(range.0 + range.1 <= n);
    &b[range.0..range.0 + range.1]
}

/// The key that one write of a transaction reserves.
pub open spec fn slot_of(buf: Seq<u8>, w: PreparedWrite) -> Slot {
    (w.cf_id, part_of(buf, w.key))
}

impl PreparedEntry {
    /// Every key and value lies inside the buffer.
    pub open spec fn valid(self) -> bool {
        forall|i: int|
            0 <= i < self.writes@.len() ==> {
                let w = #[trigger] self.writes@[i];
                &&& w.key.0 + w.key.1 <= self.buf@.len()
                &&& w.value.0 + w.value.1 <= self.buf@.len()
            }
    }

    /// The keys that the transaction reserves, in the order of its writes.
    pub open spec fn slots(self) -> Seq<Slot> {
        self.writes@.map_values(|w: PreparedWrite| slot_of(self.buf@, w))
    }

    /// The writes with their column family, key and value.
    pub fn records(&self) -> (r: Vec<(u64, &[u8], &[u8], &PreparedWrite)>)
        requires
            self.valid(),
        ensures
            r@.len() == self.writes@.len(),
            forall|i: int|
                0 <= i < r@.len() ==> {
                    let w = self.writes@[i];
                    &&& (#[trigger] r@[i]).0 == w.cf_id
                    &&& r@[i].1@ == part_of(self.buf@, w.key)
                    &&& r@[i].2@ == part_of(self.buf@, w.value)
                    &&& *r@[i].3 == w
                },
    {
        let mut out: Vec<(u64, &[u8], &[u8], &PreparedWrite)> = Vec::new();
        let mut i: usize = 0;
        while i < self.writes.len()
            invariant
                i <= self.writes@.len(),
                self.valid(),
                out@.len() == i,
                forall|j: int|
                    0 <= j < i ==> {
                        let w = self.writes@[j];
                        &&& (#[trigger] out@[j]).0 == w.cf_id
                        &&& out@[j].1@ == part_of(self.buf@, w.key)
                        &&& out@[j].2@ == part_of(self.buf@, w.value)
                        &&& *out@[j].3 == w
                    },
            decreases self.writes@.len() - i,
        {
            let w = &self.writes[i];
            out.push((w.cf_id, part(&self.buf, w.key), part(&self.buf, w.value), w));
            i += 1;
        }
        out
    }
}

/// What an operator sees of an undecided prepare.
#[derive(Debug, Clone)]
pub struct PreparedInfo {
    pub id: [u8; 16],
    /// Nanoseconds since the prepare; never negative.
    pub age_nanos: u64,
    pub bytes: usize,
    pub cf_ids: Vec<u64>,
}

/// `a - b` within 64 bits, and at least zero.
pub open spec fn elapsed(now: i64, then: i64) -> int {
    if now - then < 0 {
        0
    } else if now - then > i64::MAX {
        i64::MAX as int
    } else {
        now - then
    }
}

/// Whether `i` tells what `e` holds, as of `now`.
pub open spec fn describes(i: PreparedInfo, e: PreparedEntry, now: i64) -> bool {
    &&& i.id@ == e.id@
    &&& i.age_nanos == elapsed(now, e.prepared_at)
    &&& i.bytes == e.bytes
    &&& i.cf_ids@ == e.cf_ids@
}

// ---------------------------------------------------------------------------
// Reserved keys
// ---------------------------------------------------------------------------

struct Reservation {
    cf_id: u64,
    key: Vec<u8>,
    id: [u8; 16],
}

spec fn slot_at(v: Seq<Reservation>, i: int) -> Slot {
    (v[i].cf_id, v[i].key@)
}

spec fn is_at(v: Seq<Reservation>, k: Slot, i: int) -> bool {
    0 <= i < v.len() && slot_at(v, i) == k
}

/// Each key once.
spec fn distinct(v: Seq<Reservation>) -> bool {
    forall|i: int, j: int| 0 <= i < j < v.len() ==> #[trigger] slot_at(v, i) != #[trigger] slot_at(v, j)
}

spec fn owner_map(v: Seq<Reservation>) -> Map<Slot, Seq<u8>> {
    Map::new(|k: Slot| exists|i: int| is_at(v, k, i), |k: Slot| v[choose|i: int| is_at(v, k, i)].id@)
}

proof fn lemma_owner_at(v: Seq<Reservation>, i: int)
    requires
        distinct(v),
        0 <= i < v.len(),
    ensures
        owner_map(v).dom().contains(slot_at(v, i)),
        owner_map(v)[slot_at(v, i)] == v[i].id@,
{
    let k = slot_at(v, i);
    assert(is_at(v, k, i));
    let j = choose|j: int| is_at(v, k, j);
    assert(is_at(v, k, j));
}

proof fn lemma_owner_pushed(v: Seq<Reservation>, x: Reservation)
    requires
        distinct(v),
        !owner_map(v).dom().contains((x.cf_id, x.key@)),
    ensures
        distinct(v.push(x)),
        owner_map(v.push(x)) == owner_map(v).insert((x.cf_id, x.key@), x.id@),
{
    let w = v.push(x);
    let i = v.len() as int;
    let k = slot_at(w, i);
    assert forall|a: int, b: int| 0 <= a < b < w.len() implies #[trigger] slot_at(w, a) != #[trigger] slot_at(w, b) by {
        if a < v.len() {
            assert(slot_at(w, a) == slot_at(v, a));
            lemma_owner_at(v, a);
        }
        if b < v.len() {
            assert(slot_at(w, b) == slot_at(v, b));
        }
    }
    let m = owner_map(v).insert(k, w[i].id@);
    assert forall|x: Slot| #[trigger] owner_map(w).dom().contains(x) <==> m.dom().contains(x) by {
        if owner_map(w).dom().contains(x) {
            let a = choose|a: int| is_at(w, x, a);
            if a < v.len() {
                assert(slot_at(w, a) == slot_at(v, a));
                lemma_owner_at(v, a);
            }
        }
        if m.dom().contains(x) {
            if x == k {
                lemma_owner_at(w, i);
            } else {
                let a = choose|a: int| is_at(v, x, a);
                assert(slot_at(w, a) == slot_at(v, a));
                lemma_owner_at(w, a);
            }
        }
    }
    assert forall|x: Slot| owner_map(w).dom().contains(x) implies #[trigger] owner_map(w)[x] == m[x] by {
        let a = choose|a: int| is_at(w, x, a);
        lemma_owner_at(w, a);
        if a != i {
            assert(slot_at(w, a) == slot_at(v, a));
            lemma_owner_at(v, a);
        }
    }
    assert(owner_map(w) =~= m);
}

proof fn lemma_owner_removed(v: Seq<Reservation>, i: int)
    requires
        distinct(v),
        0 <= i < v.len(),
    ensures
        distinct(v.remove(i)),
        owner_map(v.remove(i)) == owner_map(v).remove(slot_at(v, i)),
{
    let w = v.remove(i);
    let k = slot_at(v, i);
    assert forall|a: int| 0 <= a < w.len() implies #[trigger] slot_at(w, a) == slot_at(v, if a < i { a } else { a + 1 }) by {}
    let m = owner_map(v).remove(k);
    assert forall|x: Slot| #[trigger] owner_map(w).dom().contains(x) <==> m.dom().contains(x) by {
        if owner_map(w).dom().contains(x) {
            let a = choose|a: int| is_at(w, x, a);
            lemma_owner_at(v, if a < i { a } else { a + 1 });
        }
        if m.dom().contains(x) {
            let a = choose|a: int| is_at(v, x, a);
            assert(slot_at(w, if a < i { a } else { a - 1 }) == x);
            lemma_owner_at(w, if a < i { a } else { a - 1 });
        }
    }
    assert forall|x: Slot| owner_map(w).dom().contains(x) implies #[trigger] owner_map(w)[x] == m[x] by {
        let a = choose|a: int| is_at(w, x, a);
        lemma_owner_at(w, a);
        lemma_owner_at(v, if a < i { a } else { a + 1 });
    }
    assert(owner_map(w) =~= m);
}

fn find_slot(v: &Vec<Reservation>, cf_id: u64, key: &[u8]) -> (r: Option<usize>)
    requires
        distinct(v@),
    ensures
        match r {
            Some(i) => i < v@.len() && slot_at(v@, i as int) == (cf_id, key@),
            None => !owner_map(v@).dom().contains((cf_id, key@)),
        },
{
    let mut i: usize = 0;
    while i < v.len()
        invariant
            i <= v@.len(),
            forall|j: int| 0 <= j < i ==> #[trigger] slot_at(v@, j) != (cf_id, key@),
        decreases v@.len() - i,
    {
        if v[i].cf_id == cf_id && bytes_eq(v[i].key.as_slice(), key) {
            return Some(i);
        }
        assert(slot_at(v@, i as int) != (cf_id, key@));
        i += 1;
    }
    None
}

// ---------------------------------------------------------------------------
// The registry
// ---------------------------------------------------------------------------

spec fn id_at(v: Seq<PreparedEntry>, i: int) -> Seq<u8> {
    v[i].id@
}

spec fn is_entry(v: Seq<PreparedEntry>, id: Seq<u8>, i: int) -> bool {
    0 <= i < v.len() && id_at(v, i) == id
}

/// Each id once.
spec fn distinct_ids(v: Seq<PreparedEntry>) -> bool {
    forall|i: int, j: int| 0 <= i < j < v.len() ==> #[trigger] id_at(v, i) != #[trigger] id_at(v, j)
}

spec fn entry_map(v: Seq<PreparedEntry>) -> Map<Seq<u8>, PreparedEntry> {
    Map::new(|k: Seq<u8>| exists|i: int| is_entry(v, k, i), |k: Seq<u8>| v[choose|i: int| is_entry(v, k, i)])
}

proof fn lemma_entry_at(v: Seq<PreparedEntry>, i: int)
    requires
        distinct_ids(v),
        0 <= i < v.len(),
    ensures
        entry_map(v).dom().contains(id_at(v, i)),
        entry_map(v)[id_at(v, i)] == v[i],
{
    let k = id_at(v, i);
    assert(is_entry(v, k, i));
    let j = choose|j: int| is_entry(v, k, j);
    assert(is_entry(v, k, j));
}

proof fn lemma_entry_pushed(v: Seq<PreparedEntry>, e: PreparedEntry)
    requires
        distinct_ids(v),
        !entry_map(v).dom().contains(e.id@),
    ensures
        distinct_ids(v.push(e)),
        entry_map(v.push(e)) == entry_map(v).insert(e.id@, e),
{
    let w = v.push(e);
    assert forall|a: int| 0 <= a < v.len() implies #[trigger] id_at(w, a) == id_at(v, a) by {}
    assert forall|a: int, b: int| 0 <= a < b < w.len() implies #[trigger] id_at(w, a) != #[trigger] id_at(w, b) by {
        lemma_entry_at(v, a);
        if b < v.len() {
            assert(id_at(w, b) == id_at(v, b));
        }
    }
    let m = entry_map(v).insert(e.id@, e);
    assert forall|x: Seq<u8>| #[trigger] entry_map(w).dom().contains(x) <==> m.dom().contains(x) by {
        if entry_map(w).dom().contains(x) {
            let a = choose|a: int| is_entry(w, x, a);
            if a < v.len() {
                lemma_entry_at(v, a);
            }
        }
        if m.dom().contains(x) {
            if x == e.id@ {
                lemma_entry_at(w, v.len() as int);
            } else {
                let a = choose|a: int| is_entry(v, x, a);
                assert(id_at(w, a) == x);
                lemma_entry_at(w, a);
            }
        }
    }
    assert forall|x: Seq<u8>| entry_map(w).dom().contains(x) implies #[trigger] entry_map(w)[x] == m[x] by {
        let a = choose|a: int| is_entry(w, x, a);
        lemma_entry_at(w, a);
        if a < v.len() {
            lemma_entry_at(v, a);
        }
    }
    assert(entry_map(w) =~= m);
}

proof fn lemma_entry_removed(v: Seq<PreparedEntry>, i: int)
    requires
        distinct_ids(v),
        0 <= i < v.len(),
    ensures
        distinct_ids(v.remove(i)),
        entry_map(v.remove(i)) == entry_map(v).remove(id_at(v, i)),
{
    let w = v.remove(i);
    let k = id_at(v, i);
    assert forall|a: int| 0 <= a < w.len() implies #[trigger] id_at(w, a) == id_at(v, if a < i { a } else { a + 1 }) by {}
    let m = entry_map(v).remove(k);
    assert forall|x: Seq<u8>| #[trigger] entry_map(w).dom().contains(x) <==> m.dom().contains(x) by {
        if entry_map(w).dom().contains(x) {
            let a = choose|a: int| is_entry(w, x, a);
            lemma_entry_at(v, if a < i { a } else { a + 1 });
        }
        if m.dom().contains(x) {
            let a = choose|a: int| is_entry(v, x, a);
            assert(id_at(w, if a < i { a } else { a - 1 }) == x);
            lemma_entry_at(w, if a < i { a } else { a - 1 });
        }
    }
    assert forall|x: Seq<u8>| entry_map(w).dom().contains(x) implies #[trigger] entry_map(w)[x] == m[x] by {
        let a = choose|a: int| is_entry(w, x, a);
        lemma_entry_at(w, a);
        lemma_entry_at(v, if a < i { a } else { a + 1 });
    }
    assert(entry_map(w) =~= m);
}

proof fn lemma_entry_count(v: Seq<PreparedEntry>)
    requires
        distinct_ids(v),
    ensures
        entry_map(v).dom().finite(),
        entry_map(v).dom().len() == v.len(),
    decreases v.len(),
{
    if v.len() == 0 {
        assert(entry_map(v).dom() =~= Set::empty());
    } else {
        let d = v.drop_last();
        assert forall|a: int, b: int| 0 <= a < b < d.len() implies #[trigger] id_at(d, a) != #[trigger] id_at(d, b) by {
            assert(id_at(v, a) != id_at(v, b));
        }
        if entry_map(d).dom().contains(v.last().id@) {
            let a = choose|a: int| is_entry(d, v.last().id@, a);
            assert(id_at(v, a) == id_at(v, v.len() - 1));
        }
        lemma_entry_count(d);
        lemma_entry_pushed(d, v.last());
        assert(d.push(v.last()) =~= v);
    }
}

fn find_id(v: &Vec<PreparedEntry>, id: &[u8; 16]) -> (r: Option<usize>)
    requires
        distinct_ids(v@),
    ensures
        match r {
            Some(i) => i < v@.len() && id_at(v@, i as int) == id@ && entry_map(v@).dom().contains(id@) && entry_map(v@)[id@] == v@[i as int],
            None => !entry_map(v@).dom().contains(id@),
        },
{
    let mut i: usize = 0;
    while i < v.len()
        invariant
            i <= v@.len(),
            distinct_ids(v@),
            forall|j: int| 0 <= j < i ==> #[trigger] id_at(v@, j) != id@,
        decreases v@.len() - i,
    {
        if bytes_eq(v[i].id.as_slice(), id.as_slice()) {
            proof {
                lemma_entry_at(v@, i as int);
            }
            return Some(i);
        }
        assert(id_at(v@, i as int) != id@);
        i += 1;
    }
    None
}

/// The owners of keys after a transaction with this id reserves `slots`. The
/// first preparer of a key keeps it.
pub open spec fn reserved(owners: Map<Slot, Seq<u8>>, slots: Seq<Slot>, id: Seq<u8>) -> Map<Slot, Seq<u8>>
    decreases slots.len(),
{
    if slots.len() == 0 {
        owners
    } else {
        let m = reserved(owners, slots.drop_last(), id);
        if m.dom().contains(slots.last()) {
            m
        } else {
            m.insert(slots.last(), id)
        }
    }
}

/// The owners of keys after a transaction with this id gives up `slots`:
/// those that it owns are free.
pub open spec fn released(owners: Map<Slot, Seq<u8>>, slots: Seq<Slot>, id: Seq<u8>) -> Map<Slot, Seq<u8>> {
    owners.restrict(Set::new(|k: Slot| !(slots.contains(k) && owners.dom().contains(k) && owners[k] == id)))
}

proof fn lemma_reserved(owners: Map<Slot, Seq<u8>>, slots: Seq<Slot>, id: Seq<u8>, k: Slot)
    ensures
        reserved(owners, slots, id).dom().contains(k) <==> owners.dom().contains(k) || slots.contains(k),
        owners.dom().contains(k) ==> reserved(owners, slots, id)[k] == owners[k],
        slots.contains(k) && !owners.dom().contains(k) ==> reserved(owners, slots, id)[k] == id,
    decreases slots.len(),
{
    if slots.len() > 0 {
        lemma_reserved(owners, slots.drop_last(), id, k);
        if slots.contains(k) && k != slots.last() {
            let i = choose|i: int| 0 <= i < slots.len() && slots[i] == k;
            assert(slots.drop_last()[i] == k);
        }
        if slots.drop_last().contains(k) {
            let i = choose|i: int| 0 <= i < slots.drop_last().len() && slots.drop_last()[i] == k;
            assert(slots[i] == k);
        }
        assert(slots[slots.len() - 1] == slots.last());
    }
}

/// The bytes of some prepares, added up.
pub open spec fn total_bytes(m: Map<Seq<u8>, PreparedEntry>) -> nat
    decreases m.dom().len(),
    when m.dom().finite()
{
    if m.dom().len() == 0 {
        0
    } else {
        let id = m.dom().choose();
        m[id].bytes as nat + total_bytes(m.remove(id))
    }
}

/// It does not matter in which order they are added up.
pub proof fn lemma_total_without(m: Map<Seq<u8>, PreparedEntry>, id: Seq<u8>)
    requires
        m.dom().finite(),
        m.dom().contains(id),
    ensures
        total_bytes(m) == m[id].bytes + total_bytes(m.remove(id)),
    decreases m.dom().len(),
{
    let c = m.dom().choose();
    if m.dom().len() == 0 {
        m.dom().lemma_len0_is_empty();
    }
    assert(m.dom().contains(c));
    assert(m.remove(c).dom() =~= m.dom().remove(c));
    assert(m.remove(id).dom() =~= m.dom().remove(id));
    if c != id {
        lemma_total_without(m.remove(c), id);
        lemma_total_without(m.remove(id), c);
        assert(m.remove(c).remove(id) =~= m.remove(id).remove(c));
    }
}

/// The bytes of the prepares in a listing, added up.
pub open spec fn listed_bytes(v: Seq<PreparedInfo>) -> nat
    decreases v.len(),
{
    if v.len() == 0 { 0 } else { listed_bytes(v.drop_last()) + v.last().bytes as nat }
}

/// A listing in which each of some prepares stands once adds up to what they
/// add up to.
proof fn lemma_listing_adds_up(v: Seq<PreparedInfo>, m: Map<Seq<u8>, PreparedEntry>)
    requires
        m.dom().finite(),
        v.len() == m.dom().len(),
        forall|i: int| 0 <= i < v.len() ==> m.dom().contains((#[trigger] v[i]).id@) && v[i].bytes == m[v[i].id@].bytes,
        forall|i: int, j: int| 0 <= i < j < v.len() ==> (#[trigger] v[i]).id@ != (#[trigger] v[j]).id@,
    ensures
        listed_bytes(v) == total_bytes(m),
    decreases v.len(),
{
    if v.len() > 0 {
        let x = v.last();
        let d = v.drop_last();
        let n = v.len() - 1;
        assert(v[n] == x);
        let m1 = m.remove(x.id@);
        assert(m1.dom() =~= m.dom().remove(x.id@));
        assert forall|i: int| 0 <= i < d.len() implies m1.dom().contains((#[trigger] d[i]).id@) && d[i].bytes == m1[d[i].id@].bytes by {
            assert(d[i] == v[i] && v[i].id@ != v[n].id@);
        }
        assert forall|i: int, j: int| 0 <= i < j < d.len() implies (#[trigger] d[i]).id@ != (#[trigger] d[j]).id@ by {
            assert(d[i] == v[i] && d[j] == v[j]);
        }
        lemma_listing_adds_up(d, m1);
        lemma_total_without(m, x.id@);
    }
}

/// Every undecided prepare, by id and by reserved key, and the ids that are
/// decided but not yet free for reuse.
pub struct PreparedRegistry {
    by_id: Vec<PreparedEntry>,
    by_key: Vec<Reservation>,
    retiring: Vec<[u8; 16]>,
    bytes: usize,
    max_bytes: usize,
}

spec fn id_set(v: Seq<[u8; 16]>) -> Set<Seq<u8>> {
    Set::new(|k: Seq<u8>| exists|i: int| 0 <= i < v.len() && (#[trigger] v[i])@ == k)
}

impl PreparedRegistry {
    /// The undecided prepares by id.
    pub closed spec fn entries(self) -> Map<Seq<u8>, PreparedEntry> {
        entry_map(self.by_id@)
    }

    /// Who reserves a key.
    pub closed spec fn owners(self) -> Map<Slot, Seq<u8>> {
        owner_map(self.by_key@)
    }

    /// The ids that are decided but not yet free for reuse.
    pub closed spec fn retired(self) -> Set<Seq<u8>> {
        id_set(self.retiring@)
    }

    pub closed spec fn charged(self) -> usize {
        self.bytes
    }

    pub closed spec fn cap(self) -> usize {
        self.max_bytes
    }

    /// Each id and each key is held once.
    pub closed spec fn stored(self) -> bool {
        distinct_ids(self.by_id@) && distinct(self.by_key@)
    }

    /// Entries stand under their own id and are valid, and a reserved key is
    /// one that its owner, an undecided prepare, writes.
    pub open spec fn valid(self) -> bool {
        &&& self.stored()
        &&& self.entries().dom().finite()
        &&& forall|id: Seq<u8>| #[trigger] self.entries().dom().contains(id) ==> self.entries()[id].id@ == id && self.entries()[id].valid()
        &&& forall|k: Slot| #[trigger]
            self.owners().dom().contains(k) ==> self.entries().dom().contains(self.owners()[k]) && self.entries()[self.owners()[k]].slots().contains(k)
    }

    /// Whether what is charged is the bytes of the undecided prepares, added up.
    pub open spec fn adds_up(self) -> bool {
        self.charged() == total_bytes(self.entries())
    }

    /// An empty registry that charges at most `max_bytes`.
    pub fn new(max_bytes: usize) -> (r: PreparedRegistry)
        ensures
            r.valid(),
            r.entries() == Map::<Seq<u8>, PreparedEntry>::empty(),
            r.owners() == Map::<Slot, Seq<u8>>::empty(),
            r.retired() == Set::<Seq<u8>>::empty(),
            r.charged() == 0,
            r.adds_up(),
            r.cap() == max_bytes,
    {
        let r = PreparedRegistry { by_id: Vec::new(), by_key: Vec::new(), retiring: Vec::new(), bytes: 0, max_bytes };
        proof {
            assert(r.entries() =~= Map::<Seq<u8>, PreparedEntry>::empty());
            assert(r.owners() =~= Map::<Slot, Seq<u8>>::empty());
            assert(r.retired() =~= Set::<Seq<u8>>::empty());
        }
        r
    }

    /// How many prepares are undecided.
    pub fn len(&self) -> (r: usize)
        requires
            self.valid(),
        ensures
            r == self.entries().dom().len(),
    {
        proof {
            lemma_entry_count(self.by_id@);
        }
        self.by_id.len()
    }

    /// Whether no key is reserved.
    pub fn is_empty(&self) -> (r: bool)
        requires
            self.valid(),
        ensures
            r == (self.owners() == Map::<Slot, Seq<u8>>::empty()),
    {
        proof {
            if self.by_key@.len() == 0 {
                assert(self.owners() =~= Map::<Slot, Seq<u8>>::empty());
            } else {
                lemma_owner_at(self.by_key@, 0);
            }
        }
        self.by_key.len() == 0
    }

    /// Who reserves `key` of the column family `cf_id`.
    pub fn owner_of(&self, cf_id: u64, key: &[u8]) -> (r: Option<[u8; 16]>)
        requires
            self.valid(),
        ensures
            match r {
                Some(id) => self.owners().dom().contains((cf_id, key@)) && self.owners()[(cf_id, key@)] == id@,
                None => !self.owners().dom().contains((cf_id, key@)),
            },
    {
        match find_slot(&self.by_key, cf_id, key) {
            Some(i) => {
                proof {
                    lemma_owner_at(self.by_key@, i as int);
                }
                Some(self.by_key[i].id)
            },
            None => None,
        }
    }

    /// Some reserved key of `cf_id` inside `[start, end)`, with its owner.
    /// Which one, where there are several, is left open.
    pub fn owner_in_range<C: Comparator>(&self, cf_id: u64, ord: &C, start: &[u8], end: &[u8]) -> (r: Option<
        ([u8; 16], Vec<u8>),
    >)
        requires
            self.valid(),
        ensures
            match r {
                Some((id, key)) => self.owners().dom().contains((cf_id, key@)) && self.owners()[(cf_id, key@)] == id@ && ord.le(start@, key@)
                    && !ord.le(end@, key@),
                None => forall|key: Seq<u8>| #[trigger] self.owners().dom().contains((cf_id, key)) ==> !(ord.le(start@, key) && !ord.le(end@, key)),
            },
    {
        let mut i: usize = 0;
        while i < self.by_key.len()
            invariant
                i <= self.by_key@.len(),
                self.valid(),
                forall|j: int|
                    0 <= j < i && (#[trigger] slot_at(self.by_key@, j)).0 == cf_id ==> !(ord.le(start@, slot_at(self.by_key@, j).1) && !ord.le(
                        end@,
                        slot_at(self.by_key@, j).1,
                    )),
            decreases self.by_key@.len() - i,
        {
            let r = &self.by_key[i];
            if r.cf_id == cf_id && ord.compare(start, r.key.as_slice()).is_le() && ord.compare(end, r.key.as_slice()).is_gt() {
                proof {
                    lemma_owner_at(self.by_key@, i as int);
                }
                return Some((r.id, copy_bytes(r.key.as_slice())));
            }
            i += 1;
        }
        None
    }

    /// Whether `id` names an undecided prepare or one that is not yet free.
    pub fn knows(&self, id: &[u8; 16]) -> (r: bool)
        requires
            self.valid(),
        ensures
            r == (self.entries().dom().contains(id@) || self.retired().contains(id@)),
    {
        let found = find_id(&self.by_id, id);
        found.is_some() || self.is_retiring(id)
    }

    /// Whether `id` is decided but not yet free for reuse.
    pub fn is_retiring(&self, id: &[u8; 16]) -> (r: bool)
        ensures
            r == self.retired().contains(id@),
    {
        let mut i: usize = 0;
        while i < self.retiring.len()
            invariant
                i <= self.retiring@.len(),
                forall|j: int| 0 <= j < i ==> (#[trigger] self.retiring@[j])@ != id@,
            decreases self.retiring@.len() - i,
        {
            if bytes_eq(self.retiring[i].as_slice(), id.as_slice()) {
                return true;
            }
            i += 1;
        }
        false
    }

    /// The undecided prepare with this id.
    pub fn get(&self, id: &[u8; 16]) -> (r: Option<&PreparedEntry>)
        requires
            self.valid(),
        ensures
            match r {
                Some(e) => self.entries().dom().contains(id@) && self.entries()[id@] == *e,
                None => !self.entries().dom().contains(id@),
            },
    {
        match find_id(&self.by_id, id) {
            Some(i) => Some(&self.by_id[i]),
            None => None,
        }
    }

    /// What the undecided prepares are charged for: their bytes, added up, as
    /// long as that was always a number of this type.
    pub fn bytes(&self) -> (r: usize)
        ensures
            r == self.charged(),
            self.adds_up() ==> r == total_bytes(self.entries()),
    {
        self.bytes
    }

    /// Refuse a prepare of `bytes` bytes that does not fit under the cap.
    pub fn check_capacity(&self, bytes: usize) -> (r: Result<(), OndaError>)
        ensures
            r is Ok <==> (if self.charged() + bytes > usize::MAX { usize::MAX as int } else { self.charged() + bytes }) <= self.cap(),
            r matches Err(e) ==> e is TooLarge,
    {
        if self.bytes.saturating_add(bytes) > self.max_bytes {
            return Err(
                OndaError::TooLarge(
                    with_number("prepared transaction does not fit under max_prepared_bytes (", self.max_bytes as u64, ")"),
                ),
            );
        }
        Ok(())
    }

    fn reserve_key(&mut self, cf_id: u64, key: &[u8], id: [u8; 16])
        requires
            distinct(old(self).by_key@),
        ensures
            final(self).by_id == old(self).by_id,
            final(self).retiring == old(self).retiring,
            final(self).bytes == old(self).bytes,
            final(self).max_bytes == old(self).max_bytes,
            distinct(final(self).by_key@),
            owner_map(final(self).by_key@) == (if owner_map(old(self).by_key@).dom().contains((cf_id, key@)) {
                owner_map(old(self).by_key@)
            } else {
                owner_map(old(self).by_key@).insert((cf_id, key@), id@)
            }),
    {
        let ghost v0 = self.by_key@;
        match find_slot(&self.by_key, cf_id, key) {
            Some(i) => {
                proof {
                    lemma_owner_at(v0, i as int);
                }
            },
            None => {
                self.by_key.push(Reservation { cf_id, key: copy_bytes(key), id });
                proof {
                    lemma_owner_pushed(v0, self.by_key@.last());
                    assert(v0.push(self.by_key@.last()) =~= self.by_key@);
                }
            },
        }
    }

    /// Take up a prepare and reserve every key that it writes. The caller has
    /// asked whether another prepare owns one: such a key stays with its owner.
    pub fn register(&mut self, entry: PreparedEntry)
        requires
            old(self).valid(),
            entry.valid(),
            !old(self).entries().dom().contains(entry.id@),
            !old(self).retired().contains(entry.id@),
        ensures
            final(self).valid(),
            final(self).entries() == old(self).entries().insert(entry.id@, entry),
            final(self).owners() == reserved(old(self).owners(), entry.slots(), entry.id@),
            final(self).retired() == old(self).retired(),
            final(self).charged() == (if old(self).charged() + entry.bytes > usize::MAX {
                usize::MAX as int
            } else {
                old(self).charged() + entry.bytes
            }),
            old(self).adds_up() && total_bytes(final(self).entries()) <= usize::MAX ==> final(self).adds_up(),
            final(self).cap() == old(self).cap(),
    {
        let ghost o0 = self.owners();
        let ghost slots = entry.slots();
        let mut i: usize = 0;
        assert(slots.take(0) =~= Seq::empty());
        while i < entry.writes.len()
            invariant
                i <= entry.writes@.len(),
                entry.valid(),
                slots == entry.slots(),
                distinct(self.by_key@),
                self.by_id == old(self).by_id,
                self.retiring == old(self).retiring,
                self.bytes == old(self).bytes,
                self.max_bytes == old(self).max_bytes,
                owner_map(self.by_key@) == reserved(o0, slots.take(i as int), entry.id@),
            decreases entry.writes@.len() - i,
        {
            let w = &entry.writes[i];
            let key = part(&entry.buf, w.key);
            self.reserve_key(w.cf_id, key, entry.id);
            proof {
                assert(slots[i as int] == (w.cf_id, key@));
                assert(slots.take(i + 1).drop_last() =~= slots.take(i as int));
            }
            i += 1;
        }
        assert(slots.take(slots.len() as int) =~= slots);
        self.bytes = self.bytes.saturating_add(entry.bytes);
        let ghost e = entry;
        self.by_id.push(entry);
        proof {
            lemma_entry_pushed(old(self).by_id@, e);
            lemma_entry_count(self.by_id@);
            lemma_total_without(self.entries(), e.id@);
            assert(self.entries().remove(e.id@) =~= old(self).entries());
            assert forall|k: Slot| #[trigger] self.owners().dom().contains(k) implies self.entries().dom().contains(self.owners()[k])
                && self.entries()[self.owners()[k]].slots().contains(k) by {
                lemma_reserved(o0, slots, e.id@, k);
                if old(self).owners().dom().contains(k) {
                    assert(old(self).entries().dom().contains(old(self).owners()[k]));
                }
            }
        }
    }

    /// Take up a prepare found in the log. The cap is for new prepares only.
    pub fn register_recovered(&mut self, entry: PreparedEntry)
        requires
            old(self).valid(),
            entry.valid(),
            !old(self).entries().dom().contains(entry.id@),
            !old(self).retired().contains(entry.id@),
        ensures
            final(self).valid(),
            final(self).entries() == old(self).entries().insert(entry.id@, entry),
            final(self).owners() == reserved(old(self).owners(), entry.slots(), entry.id@),
            final(self).retired() == old(self).retired(),
            final(self).charged() == (if old(self).charged() + entry.bytes > usize::MAX {
                usize::MAX as int
            } else {
                old(self).charged() + entry.bytes
            }),
            old(self).adds_up() && total_bytes(final(self).entries()) <= usize::MAX ==> final(self).adds_up(),
            final(self).cap() == old(self).cap(),
    {
        self.register(entry);
    }

    /// Whether more is charged than the cap allows.
    pub fn over_capacity(&self) -> (r: bool)
        ensures
            r == (self.charged() > self.cap()),
    {
        self.bytes > self.max_bytes
    }

    fn release_key(&mut self, cf_id: u64, key: &[u8], id: &[u8; 16])
        requires
            distinct(old(self).by_key@),
        ensures
            final(self).by_id == old(self).by_id,
            final(self).retiring == old(self).retiring,
            final(self).bytes == old(self).bytes,
            final(self).max_bytes == old(self).max_bytes,
            distinct(final(self).by_key@),
            owner_map(final(self).by_key@) == (if owner_map(old(self).by_key@).dom().contains((cf_id, key@)) && owner_map(old(self).by_key@)[(
                cf_id,
                key@,
            )] == id@ {
                owner_map(old(self).by_key@).remove((cf_id, key@))
            } else {
                owner_map(old(self).by_key@)
            }),
    {
        let ghost v0 = self.by_key@;
        if let Some(i) = find_slot(&self.by_key, cf_id, key) {
            proof {
                lemma_owner_at(v0, i as int);
            }
            if bytes_eq(self.by_key[i].id.as_slice(), id.as_slice()) {
                proof {
                    lemma_owner_removed(v0, i as int);
                }
                self.by_key.remove(i);
            }
        }
    }

    /// Take a prepare out, with every key that it reserves. Its id is not free
    /// before `forget`.
    pub fn resolve(&mut self, id: &[u8; 16]) -> (r: Option<PreparedEntry>)
        requires
            old(self).valid(),
        ensures
            final(self).valid(),
            final(self).cap() == old(self).cap(),
            old(self).adds_up() ==> final(self).adds_up(),
            match r {
                None => !old(self).entries().dom().contains(id@) && final(self).entries() == old(self).entries() && final(self).owners()
                    == old(self).owners() && final(self).retired() == old(self).retired() && final(self).charged() == old(self).charged(),
                Some(e) => {
                    &&& old(self).entries().dom().contains(id@)
                    &&& old(self).entries()[id@] == e
                    &&& final(self).entries() == old(self).entries().remove(id@)
                    &&& final(self).owners() == released(old(self).owners(), e.slots(), id@)
                    &&& forall|k: Slot| #[trigger] final(self).owners().dom().contains(k) ==> final(self).owners()[k] != id@
                    &&& final(self).retired() == old(self).retired().insert(id@)
                    &&& final(self).charged() == (if old(self).charged() < e.bytes { 0int } else { old(self).charged() - e.bytes })
                },
            },
    {
        let at = match find_id(&self.by_id, id) {
            None => {
                return None;
            },
            Some(i) => i,
        };
        let ghost o0 = self.owners();
        let ghost e0 = self.entries();
        proof {
            lemma_entry_at(self.by_id@, at as int);
            lemma_entry_removed(self.by_id@, at as int);
        }
        let entry = self.by_id.remove(at);
        let ghost ids1 = self.by_id;
        let ghost slots = entry.slots();
        let mut i: usize = 0;
        assert(released(o0, slots.take(0), id@) =~= o0);
        while i < entry.writes.len()
            invariant
                i <= entry.writes@.len(),
                entry.valid(),
                slots == entry.slots(),
                distinct(self.by_key@),
                self.by_id == ids1,
                self.retiring == old(self).retiring,
                self.bytes == old(self).bytes,
                self.max_bytes == old(self).max_bytes,
                owner_map(self.by_key@) == released(o0, slots.take(i as int), id@),
            decreases entry.writes@.len() - i,
        {
            let w = &entry.writes[i];
            let key = part(&entry.buf, w.key);
            let ghost m0 = owner_map(self.by_key@);
            let ghost k = (w.cf_id, key@);
            self.release_key(w.cf_id, key, id);
            proof {
                assert(slots[i as int] == k);
                let s0 = slots.take(i as int);
                let s1 = slots.take(i + 1);
                assert(s1[i as int] == k);
                assert forall|x: Slot| #[trigger] s1.contains(x) <==> s0.contains(x) || x == k by {
                    if s0.contains(x) {
                        let a = choose|a: int| 0 <= a < s0.len() && s0[a] == x;
                        assert(s1[a] == x);
                    }
                    if s1.contains(x) && x != k {
                        let a = choose|a: int| 0 <= a < s1.len() && s1[a] == x;
                        assert(s0[a] == x);
                    }
                }
                assert(owner_map(self.by_key@) =~= released(o0, s1, id@));
            }
            i += 1;
        }
        assert(slots.take(slots.len() as int) =~= slots);
        self.bytes = self.bytes.saturating_sub(entry.bytes);
        let ghost r0 = self.retiring@;
        if !self.is_retiring(id) {
            self.retiring.push(*id);
            proof {
                assert forall|x: Seq<u8>| #[trigger] id_set(self.retiring@).contains(x) <==> id_set(r0).insert(id@).contains(x) by {
                    if id_set(r0).contains(x) {
                        let a = choose|a: int| 0 <= a < r0.len() && (#[trigger] r0[a])@ == x;
                        assert(self.retiring@[a]@ == x);
                    }
                    assert(self.retiring@[r0.len() as int]@ == id@);
                    if id_set(self.retiring@).contains(x) && x != id@ {
                        let a = choose|a: int| 0 <= a < self.retiring@.len() && (#[trigger] self.retiring@[a])@ == x;
                        assert(r0[a]@ == x);
                    }
                }
            }
        }
        proof {
            assert(self.retired() =~= old(self).retired().insert(id@));
            lemma_entry_count(self.by_id@);
            lemma_total_without(e0, id@);
            assert forall|k: Slot| #[trigger] self.owners().dom().contains(k) implies self.owners()[k] != id@ && self.entries().dom().contains(
                self.owners()[k],
            ) && self.entries()[self.owners()[k]].slots().contains(k) by {
                assert(o0.dom().contains(k));
                assert(old(self).owners().dom().contains(k));
                assert(e0.dom().contains(o0[k]));
            }
        }
        Some(entry)
    }

    /// Make a decided id free for reuse.
    pub fn forget(&mut self, id: &[u8; 16])
        requires
            old(self).valid(),
        ensures
            final(self).valid(),
            final(self).entries() == old(self).entries(),
            final(self).owners() == old(self).owners(),
            final(self).charged() == old(self).charged(),
            old(self).adds_up() ==> final(self).adds_up(),
            final(self).cap() == old(self).cap(),
            final(self).retired() == old(self).retired().remove(id@),
    {
        let ghost r0 = self.retiring@;
        let mut left: Vec<[u8; 16]> = Vec::new();
        let mut i: usize = 0;
        while i < self.retiring.len()
            invariant
                i <= self.retiring@.len(),
                *self == *old(self),
                r0 == self.retiring@,
                forall|x: Seq<u8>| #[trigger] id_set(left@).contains(x) <==> id_set(r0.take(i as int)).contains(x) && x != id@,
            decreases self.retiring@.len() - i,
        {
            let ghost l0 = left@;
            let x = self.retiring[i];
            if !bytes_eq(x.as_slice(), id.as_slice()) {
                left.push(x);
            }
            proof {
                lemma_id_set_push(r0.take(i as int), x);
                assert(r0.take(i + 1) =~= r0.take(i as int).push(x));
                lemma_id_set_push(l0, x);
            }
            i += 1;
        }
        self.retiring = left;
        proof {
            assert(r0.take(r0.len() as int) =~= r0);
            assert(self.retired() =~= old(self).retired().remove(id@));
            assert(self.owners() == old(self).owners());
            assert(self.entries() == old(self).entries());
        }
    }

    fn describe(e: &PreparedEntry, now: i64) -> (r: PreparedInfo)
        ensures
            describes(r, *e, now),
            r.id == e.id,
    {
        let age: i64 = if now >= 0 && e.prepared_at < 0 && now > i64::MAX + e.prepared_at {
            i64::MAX
        } else if now < e.prepared_at {
            0
        } else {
            now - e.prepared_at
        };
        PreparedInfo { id: e.id, age_nanos: age as u64, bytes: e.bytes, cf_ids: e.cf_ids.clone() }
    }

    /// Every undecided prepare, ordered by id.
    pub fn list(&self, now: i64) -> (r: Vec<PreparedInfo>)
        requires
            self.valid(),
        ensures
            r@.len() == self.entries().dom().len(),
            forall|i: int|
                0 <= i < r@.len() ==> self.entries().dom().contains((#[trigger] r@[i]).id@) && describes(r@[i], self.entries()[r@[i].id@], now),
            forall|i: int, j: int|
                0 <= i < j < r@.len() ==> !crate::comparator::bytes_le((#[trigger] r@[j]).id@, (#[trigger] r@[i]).id@),
            listed_bytes(r@) == total_bytes(self.entries()),
    {
        let mut out: Vec<PreparedInfo> = Vec::new();
        let mut n: usize = 0;
        while n < self.by_id.len()
            invariant
                n <= self.by_id@.len(),
                self.valid(),
                out@.len() == n,
                forall|i: int|
                    0 <= i < n ==> self.entries().dom().contains((#[trigger] out@[i]).id@) && describes(
                        out@[i],
                        self.entries()[out@[i].id@],
                        now,
                    ),
                forall|i: int| 0 <= i < n ==> exists|k: int| 0 <= k < n && (#[trigger] out@[i]).id@ == #[trigger] id_at(self.by_id@, k),
                forall|i: int, j: int|
                    0 <= i < j < n ==> !crate::comparator::bytes_le((#[trigger] out@[j]).id@, (#[trigger] out@[i]).id@),
            decreases self.by_id@.len() - n,
        {
            let e = &self.by_id[n];
            let info = Self::describe(e, now);
            proof {
                lemma_entry_at(self.by_id@, n as int);
                assert(self.entries()[e.id@] == *e);
            }
            let ghost o0 = out@;
            let at = Self::place(&out, &info);
            proof {
                assert forall|i: int| 0 <= i < n implies (#[trigger] o0[i]).id@ != info.id@ by {
                    let k = choose|k: int| 0 <= k < n && o0[i].id@ == #[trigger] id_at(self.by_id@, k);
                    assert(id_at(self.by_id@, k) != id_at(self.by_id@, n as int));
                }
            }
            let ghost x = info;
            out.insert(at, info);
            proof {
                Self::lemma_placed(o0, x, at as int);
                assert forall|i: int| 0 <= i <= n implies exists|k: int| 0 <= k <= n && (#[trigger] out@[i]).id@ == #[trigger] id_at(
                    self.by_id@,
                    k,
                ) by {
                    if i == at {
                        assert(out@[i].id@ == id_at(self.by_id@, n as int));
                    } else {
                        let y = if i < at { i } else { i - 1 };
                        assert(out@[i] == o0[y]);
                        let k = choose|k: int| 0 <= k < n && o0[y].id@ == #[trigger] id_at(self.by_id@, k);
                        assert(out@[i].id@ == id_at(self.by_id@, k));
                    }
                }
                assert forall|i: int| 0 <= i <= n implies self.entries().dom().contains((#[trigger] out@[i]).id@) && describes(
                    out@[i],
                    self.entries()[out@[i].id@],
                    now,
                ) by {
                    if i != at {
                        let y = if i < at { i } else { i - 1 };
                        assert(out@[i] == o0[y]);
                    }
                }
            }
            n += 1;
        }
        proof {
            lemma_entry_count(self.by_id@);
            assert forall|i: int, j: int| 0 <= i < j < out@.len() implies (#[trigger] out@[i]).id@ != (#[trigger] out@[j]).id@ by {
                crate::comparator::lemma_bytes_total(out@[i].id@, out@[i].id@);
            }
            lemma_listing_adds_up(out@, self.entries());
        }
        out
    }

    /// Where `x` goes among infos that ascend by id.
    fn place(v: &Vec<PreparedInfo>, x: &PreparedInfo) -> (r: usize)
        requires
            forall|i: int, j: int| 0 <= i < j < v@.len() ==> !crate::comparator::bytes_le((#[trigger] v@[j]).id@, (#[trigger] v@[i]).id@),
        ensures
            r <= v@.len(),
            forall|i: int| 0 <= i < r ==> crate::comparator::bytes_le((#[trigger] v@[i]).id@, x.id@),
            forall|i: int| r <= i < v@.len() ==> crate::comparator::bytes_le(x.id@, (#[trigger] v@[i]).id@),
    {
        let mut i: usize = 0;
        while i < v.len()
            invariant
                i <= v@.len(),
                forall|j: int| 0 <= j < i ==> crate::comparator::bytes_le((#[trigger] v@[j]).id@, x.id@),
                forall|a: int, b: int| 0 <= a < b < v@.len() ==> !crate::comparator::bytes_le((#[trigger] v@[b]).id@, (#[trigger] v@[a]).id@),
            decreases v@.len() - i,
        {
            proof {
                crate::comparator::lemma_bytes_total(v@[i as int].id@, x.id@);
            }
            if compare_bytes(v[i].id.as_slice(), x.id.as_slice()).is_gt() {
                proof {
                    assert forall|j: int| i <= j < v@.len() implies crate::comparator::bytes_le(x.id@, (#[trigger] v@[j]).id@) by {
                        if j > i {
                            crate::comparator::lemma_bytes_total(v@[i as int].id@, v@[j].id@);
                            crate::comparator::lemma_bytes_transitive(x.id@, v@[i as int].id@, v@[j].id@);
                        }
                    }
                }
                return i;
            }
            i += 1;
        }
        i
    }

    proof fn lemma_placed(v: Seq<PreparedInfo>, x: PreparedInfo, at: int)
        requires
            0 <= at <= v.len(),
            forall|i: int, j: int| 0 <= i < j < v.len() ==> !crate::comparator::bytes_le((#[trigger] v[j]).id@, (#[trigger] v[i]).id@),
            forall|i: int| 0 <= i < at ==> crate::comparator::bytes_le((#[trigger] v[i]).id@, x.id@),
            forall|i: int| at <= i < v.len() ==> crate::comparator::bytes_le(x.id@, (#[trigger] v[i]).id@),
            forall|i: int| 0 <= i < v.len() ==> (#[trigger] v[i]).id@ != x.id@,
        ensures
            forall|i: int, j: int|
                0 <= i < j <= v.len() ==> !crate::comparator::bytes_le((#[trigger] v.insert(at, x)[j]).id@, (#[trigger] v.insert(at, x)[i]).id@),
    {
        let w = v.insert(at, x);
        assert forall|i: int, j: int| 0 <= i < j <= v.len() implies !crate::comparator::bytes_le((#[trigger] w[j]).id@, (#[trigger] w[i]).id@) by {
            let a = if i < at { i } else { i - 1 };
            let b = if j < at { j } else { j - 1 };
            if i != at {
                assert(w[i] == v[a]);
            }
            if j != at {
                assert(w[j] == v[b]);
            }
            if crate::comparator::bytes_le(w[j].id@, w[i].id@) {
                if i == at {
                    crate::comparator::lemma_bytes_antisymmetric(w[j].id@, w[i].id@);
                } else if j == at {
                    crate::comparator::lemma_bytes_antisymmetric(w[j].id@, w[i].id@);
                } else {
                    assert(!crate::comparator::bytes_le(v[b].id@, v[a].id@));
                }
            }
        }
    }

    /// Whether an undecided prepare names `cf_id`.
    pub fn touches_cf(&self, cf_id: u64) -> (r: bool)
        requires
            self.valid(),
        ensures
            r == exists|id: Seq<u8>| #[trigger] self.entries().dom().contains(id) && self.entries()[id].cf_ids@.contains(cf_id),
    {
        let mut i: usize = 0;
        while i < self.by_id.len()
            invariant
                i <= self.by_id@.len(),
                self.valid(),
                forall|j: int| 0 <= j < i ==> !(#[trigger] self.by_id@[j]).cf_ids@.contains(cf_id),
            decreases self.by_id@.len() - i,
        {
            let e = &self.by_id[i];
            let mut k: usize = 0;
            while k < e.cf_ids.len()
                invariant
                    k <= e.cf_ids@.len(),
                    i < self.by_id@.len(),
                    *e == self.by_id@[i as int],
                    self.valid(),
                    forall|j: int| 0 <= j < k ==> e.cf_ids@[j] != cf_id,
                decreases e.cf_ids@.len() - k,
            {
                if e.cf_ids[k] == cf_id {
                    proof {
                        lemma_entry_at(self.by_id@, i as int);
                        assert(e.cf_ids@[k as int] == cf_id);
                        assert(self.entries().dom().contains(e.id@));
                    }
                    return true;
                }
                k += 1;
            }
            i += 1;
        }
        proof {
            assert forall|id: Seq<u8>| #[trigger] self.entries().dom().contains(id) implies !self.entries()[id].cf_ids@.contains(cf_id) by {
                let j = choose|j: int| is_entry(self.by_id@, id, j);
                lemma_entry_at(self.by_id@, j);
            }
        }
        false
    }
}

proof fn lemma_id_set_push(v: Seq<[u8; 16]>, x: [u8; 16])
    ensures
        id_set(v.push(x)) == id_set(v).insert(x@),
{
    assert forall|k: Seq<u8>| #[trigger] id_set(v.push(x)).contains(k) <==> id_set(v).insert(x@).contains(k) by {
        if id_set(v).contains(k) {
            let a = choose|a: int| 0 <= a < v.len() && (#[trigger] v[a])@ == k;
            assert(v.push(x)[a]@ == k);
        }
        assert(v.push(x)[v.len() as int]@ == x@);
        if id_set(v.push(x)).contains(k) && k != x@ {
            let a = choose|a: int| 0 <= a < v.push(x).len() && (#[trigger] v.push(x)[a])@ == k;
            assert(v[a]@ == k);
        }
    }
    assert(id_set(v.push(x)) =~= id_set(v).insert(x@));
}

/// A key is never handed over: it stays with the first that prepared it, and
/// one that nobody owned goes to the prepare that writes it.
pub proof fn lemma_first_preparer_keeps_a_key(owners: Map<Slot, Seq<u8>>, slots: Seq<Slot>, id: Seq<u8>, k: Slot)
    ensures
        owners.dom().contains(k) ==> reserved(owners, slots, id).dom().contains(k) && reserved(owners, slots, id)[k] == owners[k],
        !owners.dom().contains(k) ==> (reserved(owners, slots, id).dom().contains(k) <==> slots.contains(k)),
        !owners.dom().contains(k) && slots.contains(k) ==> reserved(owners, slots, id)[k] == id,
{
    lemma_reserved(owners, slots, id, k);
}

/// What a prepare reserves, its own decision frees: a registry that takes up
/// a prepare and then decides it reserves what it did.
pub proof fn lemma_resolve_undoes_register(owners: Map<Slot, Seq<u8>>, slots: Seq<Slot>, id: Seq<u8>)
    requires
        forall|k: Slot| #[trigger] owners.dom().contains(k) ==> owners[k] != id,
    ensures
        released(reserved(owners, slots, id), slots, id) == owners,
{
    let m = reserved(owners, slots, id);
    let r = released(m, slots, id);
    assert forall|k: Slot| #[trigger] r.dom().contains(k) <==> owners.dom().contains(k) by {
        lemma_reserved(owners, slots, id, k);
    }
    assert forall|k: Slot| r.dom().contains(k) implies #[trigger] r[k] == owners[k] by {
        lemma_reserved(owners, slots, id, k);
    }
    assert(r =~= owners);
}

// ---------------------------------------------------------------------------
// Recovery
// ---------------------------------------------------------------------------

/// A prepare found in the log.
#[derive(Debug)]
pub struct RecoveredPrepare {
    pub id: [u8; 16],
    pub cf_ids: Vec<u64>,
    pub records: Vec<Record>,
    pub gen: u64,
}

/// A decision found in the log: the first sequence number and how many, for a
/// commit; nothing for an abort.
#[derive(Debug, Clone, Copy)]
pub struct RecoveredDecision {
    pub id: [u8; 16],
    pub commit: Option<(u64, u64)>,
    pub gen: u64,
}

/// What the log holds of prepared transactions, in no order that matters.
#[derive(Debug)]
pub struct RecoveredPrepares {
    pub prepares: Vec<RecoveredPrepare>,
    pub decisions: Vec<RecoveredDecision>,
}

/// Whether `i` is the newest decision on `id`: of the highest generation, and
/// the last of those.
pub open spec fn is_newest(ds: Seq<RecoveredDecision>, id: Seq<u8>, i: int) -> bool {
    &&& 0 <= i < ds.len()
    &&& ds[i].id@ == id
    &&& forall|j: int| 0 <= j < ds.len() && (#[trigger] ds[j]).id@ == id ==> ds[j].gen < ds[i].gen || (ds[j].gen == ds[i].gen && j <= i)
}

impl Default for RecoveredPrepares {
    fn default() -> (r: RecoveredPrepares)
        ensures
            r.prepares@.len() == 0,
            r.decisions@.len() == 0,
    {
        RecoveredPrepares { prepares: Vec::new(), decisions: Vec::new() }
    }
}

impl RecoveredPrepares {
    /// Take up a prepare; two with one id are corruption.
    pub fn add_prepare(&mut self, p: RecoveredPrepare) -> (r: Result<(), OndaError>)
        ensures
            r is Err <==> exists|i: int| 0 <= i < old(self).prepares@.len() && (#[trigger] old(self).prepares@[i]).id@ == p.id@,
            r matches Err(e) ==> e is Corruption && *final(self) == *old(self),
            r is Ok ==> final(self).prepares@ == old(self).prepares@.push(p) && final(self).decisions == old(self).decisions,
    {
        let mut i: usize = 0;
        while i < self.prepares.len()
            invariant
                i <= self.prepares@.len(),
                *self == *old(self),
                forall|j: int| 0 <= j < i ==> (#[trigger] self.prepares@[j]).id@ != p.id@,
            decreases self.prepares@.len() - i,
        {
            if bytes_eq(self.prepares[i].id.as_slice(), p.id.as_slice()) {
                return Err(OndaError::Corruption(with_number("two prepare records share one transaction id; the second is in generation ", p.gen, "")));
            }
            i += 1;
        }
        self.prepares.push(p);
        Ok(())
    }

    /// Take up a decision.
    pub fn add_decision(&mut self, d: RecoveredDecision)
        ensures
            final(self).decisions@ == old(self).decisions@.push(d),
            final(self).prepares == old(self).prepares,
    {
        self.decisions.push(d);
    }

    /// The newest decision on `id`.
    pub fn decision_for(&self, id: &[u8; 16]) -> (r: Option<RecoveredDecision>)
        ensures
            match r {
                Some(d) => exists|i: int| is_newest(self.decisions@, id@, i) && self.decisions@[i] == d,
                None => forall|i: int| 0 <= i < self.decisions@.len() ==> (#[trigger] self.decisions@[i]).id@ != id@,
            },
    {
        let mut best: Option<usize> = None;
        let mut i: usize = 0;
        let ghost ds = self.decisions@;
        while i < self.decisions.len()
            invariant
                i <= self.decisions@.len(),
                ds == self.decisions@,
                match best {
                    Some(b) => b < i && is_newest(ds.take(i as int), id@, b as int),
                    None => forall|j: int| 0 <= j < i ==> (#[trigger] ds[j]).id@ != id@,
                },
            decreases self.decisions@.len() - i,
        {
            let d = &self.decisions[i];
            let ghost b0 = best;
            if bytes_eq(d.id.as_slice(), id.as_slice()) {
                let newer = match best {
                    Some(b) => d.gen >= self.decisions[b].gen,
                    None => true,
                };
                if newer {
                    best = Some(i);
                }
            }
            proof {
                let s0 = ds.take(i as int);
                let s1 = ds.take(i + 1);
                assert(forall|j: int| 0 <= j < i ==> #[trigger] s1[j] == s0[j]);
                assert(s1[i as int] == ds[i as int]);
                if let Some(b) = b0 {
                    assert(s1[b as int] == s0[b as int]);
                }
            }
            i += 1;
        }
        assert(ds.take(ds.len() as int) =~= ds);
        match best {
            Some(b) => {
                assert(is_newest(self.decisions@, id@, b as int));
                Some(self.decisions[b])
            },
            None => None,
        }
    }
}

// ---------------------------------------------------------------------------
// What is told of a prepared transaction
// ---------------------------------------------------------------------------

/// A listing tells the identity, the bytes and the families of a prepared
/// transaction as they are, and how long ago it was prepared: nothing where the
/// clock has gone back.
pub proof fn lemma_listing_tells_the_entry(i: PreparedInfo, e: PreparedEntry, now: i64)
    requires
        describes(i, e, now),
    ensures
        i.id@ == e.id@,
        i.bytes == e.bytes,
        i.cf_ids@ == e.cf_ids@,
        now <= e.prepared_at ==> i.age_nanos == 0,
        e.prepared_at <= now && now - e.prepared_at <= i64::MAX ==> i.age_nanos == now - e.prepared_at,
        now - e.prepared_at > i64::MAX ==> i.age_nanos == i64::MAX,
{
}

/// The key that a write reserves is made of its family and of the bytes that
/// its key range names, byte for byte.
pub proof fn lemma_slot_is_the_named_bytes(e: PreparedEntry, i: int, k: int)
    requires
        e.valid(),
        0 <= i < e.writes@.len(),
        0 <= k < e.writes@[i].key.1,
    ensures
        e.slots().len() == e.writes@.len(),
        e.slots()[i].0 == e.writes@[i].cf_id,
        e.slots()[i].1.len() == e.writes@[i].key.1,
        e.slots()[i].1[k] == e.buf@[e.writes@[i].key.0 + k],
{
    let w = e.writes@[i];
    assert(w.key.0 + w.key.1 <= e.buf@.len());
}

/// Resolving a transaction gives up the keys that it owns among those it wrote,
/// and no other.
pub proof fn lemma_resolve_gives_up_its_own(owners: Map<Slot, Seq<u8>>, slots: Seq<Slot>, id: Seq<u8>, k: Slot)
    ensures
        released(owners, slots, id).dom().contains(k) <==> owners.dom().contains(k) && !(slots.contains(k) && owners[k] == id),
        released(owners, slots, id).dom().contains(k) ==> released(owners, slots, id)[k] == owners[k],
{
}

/// The decision on a transaction is the one of the highest generation, and of
/// those the last.
pub proof fn lemma_latest_decision_counts(ds: Seq<RecoveredDecision>, id: Seq<u8>, i: int, j: int)
    requires
        is_newest(ds, id, i),
        0 <= j < ds.len(),
        ds[j].id@ == id,
    ensures
        ds[i].id@ == id,
        ds[j].gen <= ds[i].gen,
        j > i ==> ds[j].gen < ds[i].gen,
        is_newest(ds, id, j) ==> i == j,
{
}

/// The bytes listed are the sum over the list.
pub proof fn lemma_listed_bytes_add_up(v: Seq<PreparedInfo>, w: Seq<PreparedInfo>)
    ensures
        listed_bytes(v + w) == listed_bytes(v) + listed_bytes(w),
        v.len() == 1 ==> listed_bytes(v) == v[0].bytes,
    decreases w.len(),
{
    reveal_with_fuel(listed_bytes, 2);
    if w.len() == 0 {
        assert(v + w =~= v);
    } else {
        assert((v + w).drop_last() =~= v + w.drop_last());
        lemma_listed_bytes_add_up(v, w.drop_last());
    }
}

} // verus!
