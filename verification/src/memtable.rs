//! The write buffer: versions of keys, sharded by a hash of the key.

use vstd::prelude::*;

use crate::comparator::KeyComparator;
use crate::encoding::copy_bytes;
use crate::flags;
use crate::hash::xxh3_64;
use crate::memtable_arena::ArenaShard;
use crate::place::{Item, Payload, Place};
use crate::skip_shard::SkipShard;
use crate::wal::RecordRef;

pub use crate::mem_iter::{FlushMerge, LazyArenaIter, LazyMemIter, MemIterator};


verus! {

/// How many shards there are.
pub const NUM_SHARDS: usize = 256;

/// One version of a key, copied out.
#[derive(Debug)]
pub struct Entry {
    pub user_key: Vec<u8>,
    pub value: Vec<u8>,
    pub seq: u64,
    pub ttl: i64,
    pub tombstone: bool,
    pub single_delete: bool,
}

/// What a point read found.
#[derive(Debug)]
pub struct Lookup {
    pub value: Vec<u8>,
    pub seq: u64,
    pub found: bool,
    pub deleted: bool,
}

impl Default for Lookup {
    fn default() -> (r: Lookup)
        ensures
            r.value@.len() == 0,
            r.seq == 0,
            !r.found,
            !r.deleted,
    {
        Lookup { value: Vec::new(), seq: 0, found: false, deleted: false }
    }
}

/// The flags of a version in memory.
pub open spec fn flags_of(tombstone: bool, single_delete: bool, ttl: i64) -> u8 {
    let t: u8 = if tombstone { flags::TOMBSTONE } else { 0 };
    let s: u8 = if single_delete { flags::SINGLE_DELETE } else { 0 };
    let e: u8 = if ttl != 0 { flags::HAS_TTL } else { 0 };
    t | s | e
}

/// The flags of a version in memory.
pub fn flag_bits(tombstone: bool, single_delete: bool, ttl: i64) -> (r: u8)
    ensures
        r == flags_of(tombstone, single_delete, ttl),
{
    let t: u8 = if tombstone { flags::TOMBSTONE } else { 0 };
    let s: u8 = if single_delete { flags::SINGLE_DELETE } else { 0 };
    let e: u8 = if ttl != 0 { flags::HAS_TTL } else { 0 };
    t | s | e
}

/// The flags say whether a version deletes.
pub proof fn lemma_flags_tell(tombstone: bool, single_delete: bool, ttl: i64)
    ensures
        flags_of(tombstone, single_delete, ttl) & flags::TOMBSTONE != 0 <==> tombstone,
        flags_of(tombstone, single_delete, ttl) & flags::SINGLE_DELETE != 0 <==> single_delete,
{
    let t: u8 = if tombstone { flags::TOMBSTONE } else { 0 };
    let s: u8 = if single_delete { flags::SINGLE_DELETE } else { 0 };
    let e: u8 = if ttl != 0 { flags::HAS_TTL } else { 0 };
    assert((t | s | e) & 0x01u8 != 0 <==> t == 0x01u8) by (bit_vector)
        requires
            t == 0x01u8 || t == 0u8,
            s == 0x10u8 || s == 0u8,
            e == 0x02u8 || e == 0u8,
    ;
    assert((t | s | e) & 0x10u8 != 0 <==> s == 0x10u8) by (bit_vector)
        requires
            t == 0x01u8 || t == 0u8,
            s == 0x10u8 || s == 0u8,
            e == 0x02u8 || e == 0u8,
    ;
}

/// Whether a version counts as deleted at `now`: it is a tombstone, or it has
/// expired.
pub open spec fn is_gone(w: Payload, now: i64) -> bool {
    w.flags & flags::TOMBSTONE != 0 || (w.ttl != 0 && w.ttl <= now)
}

/// Whether `s` is the newest version of `key` that a reader at `read_seq`
/// sees.
pub open spec fn is_visible(places: Set<Place>, key: Seq<u8>, read_seq: u64, s: u64) -> bool {
    &&& places.contains((key, s))
    &&& s <= read_seq
    &&& forall|t: u64| #[trigger] places.contains((key, t)) && t <= read_seq ==> t <= s
}

/// What a read of `key` at `read_seq` and `now` finds.
pub open spec fn is_lookup(m: Map<Place, Payload>, key: Seq<u8>, read_seq: u64, now: i64, r: Lookup) -> bool {
    if r.found {
        let w = m[(key, r.seq)];
        &&& is_visible(m.dom(), key, read_seq, r.seq)
        &&& r.deleted == is_gone(w, now)
        &&& r.value@ == (if r.deleted { Seq::empty() } else { w.value })
    } else {
        &&& forall|t: u64| t <= read_seq ==> !#[trigger] m.dom().contains((key, t))
        &&& !r.deleted
        &&& r.seq == 0
        &&& r.value@.len() == 0
    }
}

/// Where a write goes.
pub open spec fn record_place(r: RecordRef) -> Place {
    (r.key@, r.seq)
}

/// What a write stores.
pub open spec fn record_payload(r: RecordRef) -> Payload {
    Payload { value: r.value@, ttl: r.ttl, flags: flags_of(r.tombstone, r.single_delete, r.ttl) }
}

/// The writes at some positions.
pub open spec fn picked<'a>(recs: Seq<RecordRef<'a>>, at: Seq<u32>) -> Seq<RecordRef<'a>> {
    at.map_values(|i: u32| recs[i as int])
}

/// Contents after writes, one after the other.
pub open spec fn after_records(m: Map<Place, Payload>, recs: Seq<RecordRef>) -> Map<Place, Payload>
    decreases recs.len(),
{
    if recs.len() == 0 {
        m
    } else {
        after_records(m, recs.drop_last()).insert(record_place(recs.last()), record_payload(recs.last()))
    }
}

pub open spec fn entry_place(e: Entry) -> Place {
    (e.user_key@, e.seq)
}

/// Whether entries are all versions of `m`, in order.
pub open spec fn lists<C: KeyComparator>(ord: C, m: Map<Place, Payload>, es: Seq<Entry>) -> bool {
    &&& forall|i: int| 0 <= i < es.len() ==> is_entry(m, #[trigger] es[i])
    &&& forall|i: int, j: int| 0 <= i < j < es.len() ==> crate::place::place_lt(ord, entry_place(#[trigger] es[i]), entry_place(#[trigger] es[j]))
    &&& forall|p: Place| #[trigger] m.dom().contains(p) ==> exists|i: int| 0 <= i < es.len() && entry_place(#[trigger] es[i]) == p
}

/// The first version at or after `(key, read_seq)` decides what a reader sees.
pub proof fn lemma_first_is_visible<C: KeyComparator>(ord: C, places: Set<Place>, key: Seq<u8>, read_seq: u64, r: Option<Place>)
    requires
        crate::place::first_of(ord, true, crate::place::beyond(ord, true, places, (key, read_seq), true), r),
    ensures
        match r {
            Some(q) if q.0 == key => is_visible(places, key, read_seq, q.1),
            _ => forall|t: u64| t <= read_seq ==> !#[trigger] places.contains((key, t)),
        },
{
    let p = (key, read_seq);
    let s = crate::place::beyond(ord, true, places, p, true);
    crate::comparator::lemma_order(ord);
    crate::place::lemma_places(ord, true);
    assert forall|t: u64| t <= read_seq && #[trigger] places.contains((key, t)) implies s.contains((key, t)) by {
        if t != read_seq {
            assert(crate::place::leads(ord, true, p, (key, t)));
        }
    }
    if let Some(q) = r {
        assert(s.contains(q));
        assert(ord.le(key, key));
        if q.0 == key {
            assert forall|t: u64| #[trigger] places.contains((key, t)) && t <= read_seq implies t <= q.1 by {
                assert(s.contains((key, t)));
                assert(!crate::place::leads(ord, true, (key, t), q));
            }
        } else {
            assert forall|t: u64| t <= read_seq implies !#[trigger] places.contains((key, t)) by {
                if places.contains((key, t)) {
                    assert(s.contains((key, t)));
                    assert(!crate::place::leads(ord, true, (key, t), q));
                    assert(crate::place::leads(ord, true, p, q));
                    assert(crate::place::leads(ord, true, q, (key, t)) || q == (key, t));
                    assert(ord.le(key, q.0) || ord.le(q.0, key));
                    if crate::comparator::same_key(ord, key, q.0) {
                        ord.lemma_antisymmetric(key, q.0);
                    }
                }
            }
        }
    }
}

/// Whether an entry is the version at its place.
pub open spec fn is_entry(m: Map<Place, Payload>, e: Entry) -> bool {
    let p = (e.user_key@, e.seq);
    &&& m.dom().contains(p)
    &&& e.value@ == m[p].value
    &&& e.ttl == m[p].ttl
    &&& e.tombstone == (m[p].flags & flags::TOMBSTONE != 0)
    &&& e.single_delete == (m[p].flags & flags::SINGLE_DELETE != 0)
}

/// The shard of a key.
pub open spec fn shard_of(key: Seq<u8>) -> int {
    let h = crate::hash::xxh3(key);
    ((h ^ (h >> 32)) & 255) as int
}

/// The shard of a key.
pub fn shard_index(key: &[u8]) -> (r: usize)
    ensures
        r == shard_of(key@),
        r < NUM_SHARDS,
{
    let h = xxh3_64(key);
    let x = (h ^ (h >> 32u64)) & 255;
    assert((h ^ (h >> 32u64)) & 255 < 256) by (bit_vector);
    x as usize
}

/// One shard: a `SkipMap` where keys are in the plain order of bytes, an
/// arena skip list for another order.
pub enum Shard<C: KeyComparator> {
    Skip(SkipShard),
    Arena(ArenaShard<C>),
}

impl<C: KeyComparator> Shard<C> {
    /// What is stored at each place.
    pub open spec fn contents(self) -> Map<Place, Payload> {
        match self {
            Shard::Skip(s) => s.contents(),
            Shard::Arena(s) => s.contents(),
        }
    }

    /// Whether the shard keeps its versions in the order of `ord`.
    pub open spec fn valid(self, ord: C) -> bool {
        match self {
            Shard::Skip(s) => forall|a: Seq<u8>, b: Seq<u8>| #[trigger] ord.le(a, b) == crate::comparator::bytes_le(a, b),
            Shard::Arena(s) => s.valid() && s.comparator() == ord,
        }
    }

    fn new(ord: &C) -> (r: Shard<C>)
        ensures
            r.valid(*ord),
            r.contents() == Map::<Place, Payload>::empty(),
    {
        if ord.is_bytewise() {
            Shard::Skip(SkipShard::new())
        } else {
            Shard::Arena(ArenaShard::new(ord.duplicate()))
        }
    }

    fn put(&mut self, Ghost(ord): Ghost<C>, key: &[u8], value: Vec<u8>, seq: u64, ttl: i64, flags: u8)
        requires
            old(self).valid(ord),
        ensures
            final(self).valid(ord),
            final(self).contents() == old(self).contents().insert((key@, seq), Payload { value: value@, ttl, flags }),
    {
        match self {
            Shard::Skip(s) => s.put(key, value, seq, ttl, flags),
            Shard::Arena(s) => s.put(key, value.as_slice(), seq, ttl, flags),
        }
    }

    /// Store the writes at `group`, in that order.
    fn put_group(&mut self, Ghost(ord): Ghost<C>, recs: &[RecordRef<'_>], group: &[u32])
        requires
            old(self).valid(ord),
            forall|i: int| 0 <= i < group@.len() ==> (#[trigger] group@[i]) < recs@.len(),
        ensures
            final(self).valid(ord),
            final(self).contents() == after_records(old(self).contents(), picked(recs@, group@)),
    {
        match self {
            Shard::Arena(s) => s.put_group(recs, group),
            Shard::Skip(s) => {
                let ghost m0 = s.contents();
                let ghost all = picked(recs@, group@);
                let mut i: usize = 0;
                assert(all.take(0) =~= Seq::empty());
                while i < group.len()
                    invariant
                        i <= group@.len(),
                        all == picked(recs@, group@),
                        forall|j: int| 0 <= j < group@.len() ==> (#[trigger] group@[j]) < recs@.len(),
                        s.contents() == after_records(m0, all.take(i as int)),
                    decreases group@.len() - i,
                {
                    assert(group@[i as int] < recs@.len());
                    let r = &recs[group[i] as usize];
                    s.put(r.key, copy_bytes(r.value), r.seq, r.ttl, flag_bits(r.tombstone, r.single_delete, r.ttl));
                    proof {
                        assert(all[i as int] == *r);
                        assert(all.take(i + 1).drop_last() =~= all.take(i as int));
                    }
                    i += 1;
                }
                assert(all.take(all.len() as int) =~= all);
            },
        }
    }

    /// The first version in one direction.
    pub fn end(&self, ord: &C, forward: bool) -> (r: Option<Item>)
        requires
            self.valid(*ord),
        ensures
            crate::place::first_item(*ord, forward, self.contents(), self.contents().dom(), r),
    {
        match self {
            Shard::Skip(s) => s.end(ord, forward),
            Shard::Arena(s) => s.end(forward),
        }
    }

    /// The first version in one direction that comes after `(key, seq)`, which
    /// itself counts where `inclusive`.
    pub fn find(&self, ord: &C, forward: bool, key: &[u8], seq: u64, inclusive: bool) -> (r: Option<Item>)
        requires
            self.valid(*ord),
        ensures
            crate::place::first_item(
                *ord,
                forward,
                self.contents(),
                crate::place::beyond(*ord, forward, self.contents().dom(), (key@, seq), inclusive),
                r,
            ),
    {
        match self {
            Shard::Skip(s) => s.find(ord, forward, key, seq, inclusive),
            Shard::Arena(s) => s.find(forward, key, seq, inclusive),
        }
    }

    /// What a read of `key` at `read_seq` and `now` finds.
    fn get(&self, ord: &C, key: &[u8], read_seq: u64, now: i64) -> (r: Lookup)
        requires
            self.valid(*ord),
        ensures
            is_lookup(self.contents(), key@, read_seq, now, r),
    {
        let s = match self {
            Shard::Arena(s) => {
                return s.get(key, read_seq, now);
            },
            Shard::Skip(s) => s,
        };
        let found = s.find(ord, true, key, read_seq, true);
        proof {
            lemma_first_is_visible(*ord, self.contents().dom(), key@, read_seq, crate::place::place_of(found));
        }
        let item = match found {
            None => {
                return Lookup::default();
            },
            Some(i) => i,
        };
        proof {
            crate::comparator::lemma_order(*ord);
            assert(ord.le(key@, key@));
            if ord.le(item.key@, key@) && ord.le(key@, item.key@) {
                ord.lemma_antisymmetric(item.key@, key@);
            }
        }
        if !ord.compare(item.key.as_slice(), key).is_eq() {
            return Lookup::default();
        }
        if item.flags & flags::TOMBSTONE != 0 || (item.ttl != 0 && item.ttl <= now) {
            return Lookup { value: Vec::new(), seq: item.seq, found: true, deleted: true };
        }
        Lookup { value: item.value, seq: item.seq, found: true, deleted: false }
    }
}

/// The write buffer.
pub struct Memtable<C: KeyComparator> {
    shards: Vec<Shard<C>>,
    ord: C,
    approx_size: i64,
    num_entries: i64,
    max_seq: u64,
}

/// What a write adds to the size, in bytes.
pub open spec fn footprint(key: Seq<u8>, value: Seq<u8>) -> nat {
    key.len() + value.len() + 64
}

/// What writes add to the size, in bytes.
pub open spec fn total_footprint(recs: Seq<RecordRef>) -> nat
    decreases recs.len(),
{
    if recs.len() == 0 {
        0
    } else {
        total_footprint(recs.drop_last()) + footprint(recs.last().key@, recs.last().value@)
    }
}

proof fn lemma_total_grows(recs: Seq<RecordRef>, n: int)
    requires
        0 <= n <= recs.len(),
    ensures
        0 <= total_footprint(recs.take(n)) <= total_footprint(recs),
    decreases recs.len(),
{
    if n == recs.len() {
        assert(recs.take(n) =~= recs);
        if n > 0 {
            lemma_total_grows(recs.drop_last(), n - 1);
            assert(recs.drop_last().take(n - 1) =~= recs.drop_last());
        }
    } else {
        lemma_total_grows(recs.drop_last(), n);
        assert(recs.drop_last().take(n) =~= recs.take(n));
    }
}

/// The largest of a number and the sequence numbers of writes.
pub open spec fn max_seq_after(m: u64, recs: Seq<RecordRef>) -> u64
    decreases recs.len(),
{
    if recs.len() == 0 {
        m
    } else {
        let x = max_seq_after(m, recs.drop_last());
        if recs.last().seq > x { recs.last().seq } else { x }
    }
}

// ---------------------------------------------------------------------------
// Batches, grouped by shard
// ---------------------------------------------------------------------------

/// The positions below `n` of the writes that go to shard `s`.
pub open spec fn members(sh: Seq<u16>, s: int, n: int) -> Seq<u32>
    decreases n,
{
    if n <= 0 {
        Seq::empty()
    } else {
        let r = members(sh, s, n - 1);
        if sh[n - 1] == s { r.push((n - 1) as u32) } else { r }
    }
}

/// How many of the first `n` writes go to shards below `s`.
spec fn total(sh: Seq<u16>, n: int, s: int) -> int
    decreases s,
{
    if s <= 0 { 0 } else { total(sh, n, s - 1) + members(sh, s - 1, n).len() }
}

proof fn lemma_total_step(sh: Seq<u16>, n: int, s: int)
    requires
        n >= 0,
        s >= 0,
    ensures
        total(sh, n + 1, s) == total(sh, n, s) + (if sh[n] < s { 1int } else { 0 }),
    decreases s,
{
    if s > 0 {
        lemma_total_step(sh, n, s - 1);
    }
}

proof fn lemma_total_all(sh: Seq<u16>, n: int, s: int)
    requires
        n >= 0,
        s >= 0,
        forall|i: int| 0 <= i < n ==> (#[trigger] sh[i]) < s,
    ensures
        total(sh, n, s) == n,
    decreases n,
{
    if n == 0 {
        lemma_total_zero(sh, s);
    } else {
        lemma_total_all(sh, n - 1, s);
        lemma_total_step(sh, n - 1, s);
    }
}

proof fn lemma_total_zero(sh: Seq<u16>, s: int)
    ensures
        total(sh, 0, s) == 0,
    decreases s,
{
    if s > 0 {
        lemma_total_zero(sh, s - 1);
    }
}

proof fn lemma_total_monotone(sh: Seq<u16>, n: int, a: int, b: int)
    requires
        0 <= a <= b,
    ensures
        0 <= total(sh, n, a) <= total(sh, n, b),
    decreases b,
{
    if a < b {
        lemma_total_monotone(sh, n, a, b - 1);
    } else if a > 0 {
        lemma_total_monotone(sh, n, a - 1, a - 1);
    }
}

proof fn lemma_members_grow(sh: Seq<u16>, s: int, m: int, n: int)
    requires
        0 <= m <= n,
    ensures
        members(sh, s, m).len() <= members(sh, s, n).len() <= n,
    decreases n,
{
    if m < n {
        lemma_members_grow(sh, s, m, n - 1);
    } else if n > 0 {
        lemma_members_grow(sh, s, n - 1, n - 1);
    }
}

proof fn lemma_members(sh: Seq<u16>, s: int, n: int)
    requires
        0 <= n <= u32::MAX,
    ensures
        forall|k: int| 0 <= k < members(sh, s, n).len() ==> (#[trigger] members(sh, s, n)[k]) < n && sh[members(sh, s, n)[k] as int] == s,
    decreases n,
{
    if n > 0 {
        lemma_members(sh, s, n - 1);
        let r = members(sh, s, n - 1);
        let w = members(sh, s, n);
        assert forall|k: int| 0 <= k < w.len() implies (#[trigger] w[k]) < n && sh[w[k] as int] == s by {
            if k < r.len() {
                assert(w[k] == r[k]);
            }
        }
    }
}

/// Whether the run of shard `s` holds the positions of its writes.
pub open spec fn is_run(sh: Seq<u16>, order: Seq<u32>, starts: Seq<u32>, ends: Seq<u32>, s: int) -> bool {
    &&& starts[s] <= ends[s] <= order.len()
    &&& order.subrange(starts[s] as int, ends[s] as int) == members(sh, s, sh.len() as int)
}

/// Order positions by shard, those of one shard ascending. Returns the
/// positions, and for each shard where its run starts and ends.
fn group_by_shard(sh: &Vec<u16>) -> (r: (Vec<u32>, Vec<u32>, Vec<u32>))
    requires
        sh@.len() <= u32::MAX,
        forall|i: int| 0 <= i < sh@.len() ==> (#[trigger] sh@[i]) < NUM_SHARDS,
    ensures
        r.0@.len() == sh@.len(),
        r.1@.len() == NUM_SHARDS,
        r.2@.len() == NUM_SHARDS,
        forall|s: int| 0 <= s < NUM_SHARDS ==> #[trigger] is_run(sh@, r.0@, r.1@, r.2@, s),
{
    let n = sh.len();
    let mut counts: Vec<u32> = vec![0; NUM_SHARDS];
    let mut i: usize = 0;
    while i < n
        invariant
            i <= n,
            n == sh@.len(),
            n <= u32::MAX,
            counts@.len() == NUM_SHARDS,
            forall|j: int| 0 <= j < sh@.len() ==> (#[trigger] sh@[j]) < NUM_SHARDS,
            forall|s: int| 0 <= s < NUM_SHARDS ==> (#[trigger] counts@[s]) == members(sh@, s, i as int).len(),
        decreases n - i,
    {
        let s = sh[i] as usize;
        proof {
            lemma_members_grow(sh@, s as int, i as int, i as int);
        }
        let c = counts[s];
        counts.set(s, c + 1);
        i += 1;
    }
    let mut starts: Vec<u32> = Vec::new();
    let mut acc: u32 = 0;
    proof {
        lemma_total_all(sh@, n as int, NUM_SHARDS as int);
    }
    while starts.len() < NUM_SHARDS
        invariant
            starts@.len() <= NUM_SHARDS,
            counts@.len() == NUM_SHARDS,
            n == sh@.len(),
            n <= u32::MAX,
            total(sh@, n as int, NUM_SHARDS as int) == n,
            acc == total(sh@, n as int, starts@.len() as int),
            forall|s: int| 0 <= s < NUM_SHARDS ==> (#[trigger] counts@[s]) == members(sh@, s, n as int).len(),
            forall|s: int| 0 <= s < starts@.len() ==> (#[trigger] starts@[s]) == total(sh@, n as int, s),
        decreases NUM_SHARDS - starts@.len(),
    {
        let k = starts.len();
        proof {
            lemma_total_monotone(sh@, n as int, k + 1, NUM_SHARDS as int);
            assert(counts@[k as int] == members(sh@, k as int, n as int).len());
        }
        starts.push(acc);
        acc = acc + counts[k];
    }
    let mut ends: Vec<u32> = starts.clone();
    let mut order: Vec<u32> = vec![0; n];
    i = 0;
    proof {
        assert forall|s: int| 0 <= s < NUM_SHARDS implies order@.subrange((#[trigger] starts@[s]) as int, ends@[s] as int) == members(sh@, s, 0) by {
            lemma_total_monotone(sh@, n as int, s, NUM_SHARDS as int);
            assert(order@.subrange(starts@[s] as int, ends@[s] as int) =~= Seq::empty());
        }
    }
    while i < n
        invariant
            i <= n,
            n == sh@.len(),
            n <= u32::MAX,
            starts@.len() == NUM_SHARDS,
            ends@.len() == NUM_SHARDS,
            order@.len() == n,
            total(sh@, n as int, NUM_SHARDS as int) == n,
            forall|j: int| 0 <= j < sh@.len() ==> (#[trigger] sh@[j]) < NUM_SHARDS,
            forall|s: int| 0 <= s < NUM_SHARDS ==> (#[trigger] starts@[s]) == total(sh@, n as int, s),
            forall|s: int| 0 <= s < NUM_SHARDS ==> (#[trigger] ends@[s]) == starts@[s] + members(sh@, s, i as int).len(),
            forall|s: int|
                0 <= s < NUM_SHARDS ==> order@.subrange((#[trigger] starts@[s]) as int, ends@[s] as int) == members(sh@, s, i as int),
        decreases n - i,
    {
        let s = sh[i] as usize;
        let e = ends[s];
        let ghost o0 = order@;
        let ghost e0 = ends@;
        proof {
            let si = s as int;
            lemma_members_grow(sh@, si, i + 1, n as int);
            lemma_total_monotone(sh@, n as int, si + 1, NUM_SHARDS as int);
            assert(starts@[si] == total(sh@, n as int, si));
            assert(e0[si] == starts@[si] + members(sh@, si, i as int).len());
            assert(e < n);
        }
        order.set(e as usize, i as u32);
        ends.set(s, e + 1);
        proof {
            assert forall|t: int| 0 <= t < NUM_SHARDS implies (#[trigger] ends@[t]) == starts@[t] + members(sh@, t, i + 1).len() by {
                assert(e0[t] == starts@[t] + members(sh@, t, i as int).len());
            }
            assert forall|t: int| 0 <= t < NUM_SHARDS implies order@.subrange((#[trigger] starts@[t]) as int, ends@[t] as int) == members(
                sh@,
                t,
                i + 1,
            ) by {
                let lo = starts@[t] as int;
                assert(o0.subrange(lo, e0[t] as int) == members(sh@, t, i as int));
                assert(e0[t] == starts@[t] + members(sh@, t, i as int).len());
                if t == s {
                    assert(order@.subrange(lo, e + 1) =~= o0.subrange(lo, e as int).push(i as u32));
                } else {
                    lemma_members_grow(sh@, t, i as int, n as int);
                    lemma_total_monotone(sh@, n as int, t + 1, NUM_SHARDS as int);
                    if t < s {
                        lemma_total_monotone(sh@, n as int, t + 1, s as int);
                    } else {
                        lemma_total_monotone(sh@, n as int, s + 1, t);
                        lemma_members_grow(sh@, s as int, i + 1, n as int);
                    }
                    assert(order@.subrange(lo, ends@[t] as int) =~= o0.subrange(lo, e0[t] as int));
                }
            }
        }
        i += 1;
    }
    proof {
        assert forall|s: int| 0 <= s < NUM_SHARDS implies #[trigger] is_run(sh@, order@, starts@, ends@, s) by {
            assert(ends@[s] == starts@[s] + members(sh@, s, n as int).len());
            lemma_total_monotone(sh@, n as int, s + 1, NUM_SHARDS as int);
        }
    }
    (order, starts, ends)
}

/// Of the writes that go to a place's own shard, the same one comes last as of
/// all writes.
proof fn lemma_grouped(m: Map<Place, Payload>, ms: Map<Place, Payload>, recs: Seq<RecordRef>, sh: Seq<u16>, s: int, n: int, p: Place)
    requires
        0 <= n <= recs.len(),
        recs.len() <= u32::MAX,
        sh.len() == recs.len(),
        forall|i: int| 0 <= i < recs.len() ==> (#[trigger] sh[i]) == shard_of(recs[i].key@),
        shard_of(p.0) == s,
        m.dom().contains(p) <==> ms.dom().contains(p),
        m.dom().contains(p) ==> m[p] == ms[p],
    ensures
        ({
            let a = after_records(m, recs.take(n));
            let b = after_records(ms, picked(recs, members(sh, s, n)));
            &&& a.dom().contains(p) <==> b.dom().contains(p)
            &&& a.dom().contains(p) ==> a[p] == b[p]
        }),
    decreases n,
{
    if n > 0 {
        lemma_grouped(m, ms, recs, sh, s, n - 1, p);
        assert(recs.take(n).drop_last() =~= recs.take(n - 1));
        assert(sh[n - 1] == shard_of(recs[n - 1].key@));
        if sh[n - 1] == s {
            let g = picked(recs, members(sh, s, n));
            assert(g.drop_last() =~= picked(recs, members(sh, s, n - 1)));
            assert(g.last() == recs[n - 1]);
        }
    }
}

/// What can be told of a memtable from outside, but for its order.
#[verifier::ext_equal]
pub struct MemState {
    pub contents: Map<Place, Payload>,
    pub size: int,
    pub count: int,
    pub newest: u64,
}

/// A memtable after one write.
pub open spec fn put_one(s: MemState, r: RecordRef) -> MemState {
    MemState {
        contents: s.contents.insert(record_place(r), record_payload(r)),
        size: s.size + footprint(r.key@, r.value@),
        count: s.count + 1,
        newest: if r.seq > s.newest { r.seq } else { s.newest },
    }
}

/// A memtable after some writes, each put after the one before it.
pub open spec fn put_each(s: MemState, recs: Seq<RecordRef>) -> MemState
    decreases recs.len(),
{
    if recs.len() == 0 { s } else { put_one(put_each(s, recs.drop_last()), recs.last()) }
}

/// A batch comes to the same as its writes, put one by one.
pub proof fn lemma_batch_is_its_writes(s: MemState, recs: Seq<RecordRef>)
    ensures
        put_each(s, recs) == (MemState {
            contents: after_records(s.contents, recs),
            size: s.size + total_footprint(recs),
            count: s.count + recs.len(),
            newest: max_seq_after(s.newest, recs),
        }),
    decreases recs.len(),
{
    if recs.len() > 0 {
        lemma_batch_is_its_writes(s, recs.drop_last());
    }
}

impl<C: KeyComparator> Memtable<C> {
    /// What can be told of it from outside, but for its order.
    pub open spec fn state(self) -> MemState {
        MemState { contents: self.contents(), size: self.size() as int, count: self.count() as int, newest: self.newest() }
    }

    pub closed spec fn shard(self, i: int) -> Shard<C> {
        self.shards@[i]
    }

    /// What is stored at each place.
    pub open spec fn contents(self) -> Map<Place, Payload> {
        Map::new(
            |p: Place| self.shard(shard_of(p.0)).contents().dom().contains(p),
            |p: Place| self.shard(shard_of(p.0)).contents()[p],
        )
    }

    pub closed spec fn order(self) -> C {
        self.ord
    }

    pub closed spec fn size(self) -> i64 {
        self.approx_size
    }

    pub closed spec fn count(self) -> i64 {
        self.num_entries
    }

    pub closed spec fn newest(self) -> u64 {
        self.max_seq
    }

    /// Whether shard `i` holds keys of its own only.
    pub open spec fn shard_ok(self, i: int) -> bool {
        &&& self.shard(i).valid(self.order())
        &&& forall|p: Place| #[trigger] self.shard(i).contents().dom().contains(p) ==> shard_of(p.0) == i
    }

    /// Each shard holds keys of its own only, and the counters fit.
    pub closed spec fn valid(self) -> bool {
        &&& self.shards@.len() == NUM_SHARDS
        &&& forall|i: int| 0 <= i < NUM_SHARDS ==> #[trigger] self.shard_ok(i)
        &&& self.contents().dom().finite()
        &&& self.num_entries >= 0
        &&& self.approx_size >= 0
        &&& self.num_entries == 0 ==> self.contents() == Map::<Place, Payload>::empty()
    }

    /// Facts about a valid memtable that its iterators use.
    pub proof fn lemma_valid(self)
        requires
            self.valid(),
        ensures
            forall|i: int| 0 <= i < NUM_SHARDS ==> #[trigger] self.shard_ok(i),
            self.contents().dom().finite(),
            forall|k: Seq<u8>| 0 <= #[trigger] shard_of(k) < NUM_SHARDS,
    {
        assert forall|k: Seq<u8>| 0 <= #[trigger] shard_of(k) < NUM_SHARDS by {
            let h = crate::hash::xxh3(k);
            assert((h ^ (h >> 32)) & 255 < 256) by (bit_vector);
        }
    }

    /// An empty memtable whose keys are in the order `ord`.
    pub fn new(ord: C) -> (r: Memtable<C>)
        ensures
            r.valid(),
            r.order() == ord,
            r.contents() == Map::<Place, Payload>::empty(),
            r.size() == 0,
            r.count() == 0,
            r.newest() == 0,
    {
        let mut shards: Vec<Shard<C>> = Vec::new();
        while shards.len() < NUM_SHARDS
            invariant
                shards@.len() <= NUM_SHARDS,
                forall|i: int| 0 <= i < shards@.len() ==> (#[trigger] shards@[i]).valid(ord) && shards@[i].contents() == Map::<Place, Payload>::empty(),
            decreases NUM_SHARDS - shards@.len(),
        {
            shards.push(Shard::new(&ord));
        }
        let r = Memtable { shards, ord, approx_size: 0, num_entries: 0, max_seq: 0 };
        proof {
            assert forall|k: Seq<u8>| 0 <= #[trigger] shard_of(k) < NUM_SHARDS by {
                let h = crate::hash::xxh3(k);
                assert((h ^ (h >> 32)) & 255 < 256) by (bit_vector);
            }
            assert(r.contents() =~= Map::<Place, Payload>::empty());
            assert forall|i: int| 0 <= i < NUM_SHARDS implies #[trigger] r.shard_ok(i) by {
                assert(r.shard(i) == shards@[i]);
            }
        }
        r
    }

    /// The order of the keys.
    pub fn comparator(&self) -> (r: &C)
        ensures
            *r == self.order(),
    {
        &self.ord
    }

    /// The `i`-th shard.
    pub fn shard_ref(&self, i: usize) -> (r: &Shard<C>)
        requires
            self.valid(),
            i < NUM_SHARDS,
        ensures
            *r == self.shard(i as int),
    {
        &self.shards[i]
    }

    fn store(&mut self, i: usize, key: &[u8], value: Vec<u8>, seq: u64, ttl: i64, flags: u8)
        requires
            old(self).shards@.len() == NUM_SHARDS,
            forall|j: int| 0 <= j < NUM_SHARDS ==> #[trigger] old(self).shard_ok(j),
            i == shard_of(key@),
            i < NUM_SHARDS,
        ensures
            final(self).shards@.len() == NUM_SHARDS,
            forall|j: int| 0 <= j < NUM_SHARDS ==> #[trigger] final(self).shard_ok(j),
            forall|j: int| 0 <= j < NUM_SHARDS && j != i ==> #[trigger] final(self).shard(j) == old(self).shard(j),
            final(self).shard(i as int).contents() == old(self).shard(i as int).contents().insert((key@, seq), Payload { value: value@, ttl, flags }),
            final(self).ord == old(self).ord,
            final(self).approx_size == old(self).approx_size,
            final(self).num_entries == old(self).num_entries,
            final(self).max_seq == old(self).max_seq,
            final(self).contents() == old(self).contents().insert((key@, seq), Payload { value: value@, ttl, flags }),
    {
        let ghost ord = self.ord;
        proof {
            assert(self.shard_ok(i as int));
        }
        self.shards[i].put(Ghost(ord), key, value, seq, ttl, flags);
        proof {
            assert forall|j: int| 0 <= j < NUM_SHARDS && j != i implies #[trigger] self.shard(j) == old(self).shard(j) by {}
            assert forall|j: int| 0 <= j < NUM_SHARDS implies #[trigger] self.shard_ok(j) by {
                assert(old(self).shard_ok(j));
                if j != i {
                    assert(self.shard(j) == old(self).shard(j));
                } else {
                    assert forall|p: Place| #[trigger] self.shard(j).contents().dom().contains(p) implies shard_of(p.0) == j by {
                        if p != (key@, seq) {
                            assert(old(self).shard(j).contents().dom().contains(p));
                        }
                    }
                }
            }
            assert forall|k: Seq<u8>| 0 <= #[trigger] shard_of(k) < NUM_SHARDS by {
                let h = crate::hash::xxh3(k);
                assert((h ^ (h >> 32)) & 255 < 256) by (bit_vector);
            }
            let m = old(self).contents().insert((key@, seq), Payload { value: value@, ttl, flags });
            assert forall|p: Place| #[trigger] self.contents().dom().contains(p) <==> m.dom().contains(p) by {
                let j = shard_of(p.0);
                if j != i {
                    assert(self.shard(j) == old(self).shard(j));
                }
            }
            assert forall|p: Place| self.contents().dom().contains(p) implies #[trigger] self.contents()[p] == m[p] by {
                let j = shard_of(p.0);
                if j != i {
                    assert(self.shard(j) == old(self).shard(j));
                }
            }
            assert(self.contents() =~= m);
        }
    }

    /// Store a version of `user_key`. `ttl` is an absolute expiry in
    /// nanoseconds, or 0 for none.
    pub fn put(&mut self, user_key: &[u8], value: Vec<u8>, seq: u64, ttl: i64, tombstone: bool, single_delete: bool)
        requires
            old(self).valid(),
            old(self).count() < i64::MAX,
            old(self).size() + footprint(user_key@, value@) <= i64::MAX,
            footprint(user_key@, value@) <= usize::MAX,
        ensures
            final(self).valid(),
            final(self).order() == old(self).order(),
            final(self).contents() == old(self).contents().insert(
                (user_key@, seq),
                Payload { value: value@, ttl, flags: flags_of(tombstone, single_delete, ttl) },
            ),
            final(self).size() == old(self).size() + footprint(user_key@, value@),
            final(self).count() == old(self).count() + 1,
            final(self).newest() == (if seq > old(self).newest() { seq } else { old(self).newest() }),
    {
        let fl = flag_bits(tombstone, single_delete, ttl);
        let added = user_key.len() + value.len() + 64;
        let i = shard_index(user_key);
        self.store(i, user_key, value, seq, ttl, fl);
        let ghost stored = self.contents();
        self.after_insert(added, seq);
        assert(self.contents() =~= stored);
    }

    /// Store a version of `user_key` with a borrowed value.
    pub fn put_ref(&mut self, user_key: &[u8], value: &[u8], seq: u64, ttl: i64, tombstone: bool, single_delete: bool)
        requires
            old(self).valid(),
            old(self).count() < i64::MAX,
            old(self).size() + footprint(user_key@, value@) <= i64::MAX,
            footprint(user_key@, value@) <= usize::MAX,
        ensures
            final(self).valid(),
            final(self).order() == old(self).order(),
            final(self).contents() == old(self).contents().insert(
                (user_key@, seq),
                Payload { value: value@, ttl, flags: flags_of(tombstone, single_delete, ttl) },
            ),
            final(self).size() == old(self).size() + footprint(user_key@, value@),
            final(self).count() == old(self).count() + 1,
            final(self).newest() == (if seq > old(self).newest() { seq } else { old(self).newest() }),
            final(self).state() == put_one(
                old(self).state(),
                (RecordRef { key: user_key, value, seq, ttl, tombstone, single_delete }),
            ),
    {
        self.put(user_key, copy_bytes(value), seq, ttl, tombstone, single_delete);
    }

    fn after_insert(&mut self, added: usize, seq: u64)
        requires
            old(self).shards@.len() == NUM_SHARDS,
            forall|j: int| 0 <= j < NUM_SHARDS ==> #[trigger] old(self).shard_ok(j),
            old(self).contents().dom().finite(),
            0 <= old(self).num_entries < i64::MAX,
            0 <= old(self).approx_size,
            old(self).approx_size + added <= i64::MAX,
        ensures
            final(self).valid(),
            final(self).shards == old(self).shards,
            final(self).ord == old(self).ord,
            final(self).approx_size == old(self).approx_size + added,
            final(self).num_entries == old(self).num_entries + 1,
            final(self).max_seq == (if seq > old(self).max_seq { seq } else { old(self).max_seq }),
    {
        self.approx_size = self.approx_size + added as i64;
        self.num_entries = self.num_entries + 1;
        if seq > self.max_seq {
            self.max_seq = seq;
        }
        proof {
            assert forall|j: int| 0 <= j < NUM_SHARDS implies #[trigger] self.shard_ok(j) by {
                assert(old(self).shard_ok(j));
            }
            assert(self.contents() =~= old(self).contents());
        }
    }

    /// Store a batch of writes, as if each were put after the one before it:
    /// grouped by shard, so that each shard is visited once.
    pub fn put_batch(&mut self, recs: &[RecordRef<'_>])
        requires
            old(self).valid(),
            recs@.len() <= u32::MAX,
            old(self).count() + recs@.len() <= i64::MAX,
            old(self).size() + total_footprint(recs@) <= i64::MAX,
            total_footprint(recs@) <= usize::MAX,
        ensures
            final(self).valid(),
            final(self).order() == old(self).order(),
            final(self).contents() == after_records(old(self).contents(), recs@),
            final(self).size() == old(self).size() + total_footprint(recs@),
            final(self).count() == old(self).count() + recs@.len(),
            final(self).newest() == max_seq_after(old(self).newest(), recs@),
            final(self).state() == put_each(old(self).state(), recs@),
    {
        let n = recs.len();
        proof {
            lemma_batch_is_its_writes(old(self).state(), recs@);
        }
        if n == 0 {
            return;
        }
        if n == 1 {
            let r = &recs[0];
            proof {
                reveal_with_fuel(after_records, 2);
                reveal_with_fuel(total_footprint, 2);
                reveal_with_fuel(max_seq_after, 2);
                assert(recs@.drop_last() =~= Seq::empty());
                assert(recs@.last() == *r);
            }
            self.put_ref(r.key, r.value, r.seq, r.ttl, r.tombstone, r.single_delete);
            return;
        }
        let mut sh: Vec<u16> = Vec::new();
        let mut added: usize = 0;
        let mut batch_max: u64 = self.max_seq;
        let mut i: usize = 0;
        assert(recs@.take(0) =~= Seq::empty());
        while i < n
            invariant
                i <= n,
                n == recs@.len(),
                sh@.len() == i,
                total_footprint(recs@) <= usize::MAX,
                added == total_footprint(recs@.take(i as int)),
                batch_max == max_seq_after(self.max_seq, recs@.take(i as int)),
                forall|j: int| 0 <= j < i ==> (#[trigger] sh@[j]) == shard_of(recs@[j].key@) && sh@[j] < NUM_SHARDS,
            decreases n - i,
        {
            let r = &recs[i];
            proof {
                lemma_total_grows(recs@, i + 1);
                assert(recs@.take(i + 1).drop_last() =~= recs@.take(i as int));
                assert(recs@.take(i + 1).last() == *r);
            }
            sh.push(shard_index(r.key) as u16);
            added = added + (r.key.len() + r.value.len() + 64);
            if r.seq > batch_max {
                batch_max = r.seq;
            }
            i += 1;
        }
        assert(recs@.take(n as int) =~= recs@);
        let (order, starts, ends) = group_by_shard(&sh);
        self.store_groups(recs, &sh, &order, &starts, &ends);
        let ghost mid = *self;
        let ghost stored = self.contents();
        self.approx_size = self.approx_size + added as i64;
        self.num_entries = self.num_entries + n as i64;
        self.max_seq = batch_max;
        proof {
            assert forall|j: int| 0 <= j < NUM_SHARDS implies #[trigger] self.shard_ok(j) by {
                assert(mid.shard_ok(j));
            }
            assert(self.contents() =~= stored);
            lemma_records_finite(old(self).contents(), recs@);
        }
    }

    #[verifier::rlimit(30)]
    fn store_groups(&mut self, recs: &[RecordRef<'_>], sh: &Vec<u16>, order: &Vec<u32>, starts: &Vec<u32>, ends: &Vec<u32>)
        requires
            old(self).shards@.len() == NUM_SHARDS,
            forall|j: int| 0 <= j < NUM_SHARDS ==> #[trigger] old(self).shard_ok(j),
            recs@.len() <= u32::MAX,
            sh@.len() == recs@.len(),
            order@.len() == recs@.len(),
            starts@.len() == NUM_SHARDS,
            ends@.len() == NUM_SHARDS,
            forall|j: int| 0 <= j < recs@.len() ==> (#[trigger] sh@[j]) == shard_of(recs@[j].key@),
            forall|s: int| 0 <= s < NUM_SHARDS ==> #[trigger] is_run(sh@, order@, starts@, ends@, s),
        ensures
            final(self).shards@.len() == NUM_SHARDS,
            forall|j: int| 0 <= j < NUM_SHARDS ==> #[trigger] final(self).shard_ok(j),
            final(self).ord == old(self).ord,
            final(self).approx_size == old(self).approx_size,
            final(self).num_entries == old(self).num_entries,
            final(self).max_seq == old(self).max_seq,
            final(self).contents() == after_records(old(self).contents(), recs@),
    {
        let ghost n = recs@.len() as int;
        let mut s: usize = 0;
        while s < NUM_SHARDS
            invariant
                s <= NUM_SHARDS,
                n == recs@.len(),
                recs@.len() <= u32::MAX,
                sh@.len() == n,
                order@.len() == n,
                starts@.len() == NUM_SHARDS,
                ends@.len() == NUM_SHARDS,
                self.shards@.len() == NUM_SHARDS,
                self.ord == old(self).ord,
                self.approx_size == old(self).approx_size,
                self.num_entries == old(self).num_entries,
                self.max_seq == old(self).max_seq,
                forall|j: int| 0 <= j < recs@.len() ==> (#[trigger] sh@[j]) == shard_of(recs@[j].key@),
                forall|t: int| 0 <= t < NUM_SHARDS ==> #[trigger] is_run(sh@, order@, starts@, ends@, t),
                forall|j: int| 0 <= j < NUM_SHARDS ==> #[trigger] self.shard_ok(j),
                forall|t: int|
                    0 <= t < s ==> (#[trigger] self.shard(t)).contents() == after_records(
                        old(self).shard(t).contents(),
                        picked(recs@, members(sh@, t, n)),
                    ),
                forall|t: int| s <= t < NUM_SHARDS ==> #[trigger] self.shard(t) == old(self).shard(t),
            decreases NUM_SHARDS - s,
        {
            let ghost before = *self;
            let ghost si = s as int;
            assert(is_run(sh@, order@, starts@, ends@, si));
            let lo = starts[s] as usize;
            let hi = ends[s] as usize;
            if lo == hi {
                proof {
                    assert(order@.subrange(lo as int, hi as int) =~= Seq::empty());
                    assert(picked(recs@, members(sh@, si, n)) =~= Seq::empty());
                    assert(self.shard(si) == old(self).shard(si));
                }
            } else {
                let all = order.as_slice();
                let group = &all[lo..hi];
                proof {
                    assert(group@ == members(sh@, si, n));
                    lemma_members(sh@, si, n);
                    assert(self.shard_ok(si));
                    assert(self.shard(si) == old(self).shard(si));
                }
                let ghost ord = self.ord;
                self.shards[s].put_group(Ghost(ord), recs, group);
                proof {
                    assert forall|t: int| 0 <= t < NUM_SHARDS && t != si implies #[trigger] self.shard(t) == before.shard(t) by {}
                    lemma_records_keep_shard(old(self).shard(si).contents(), picked(recs@, group@), si);
                    assert forall|j: int| 0 <= j < NUM_SHARDS implies #[trigger] self.shard_ok(j) by {
                        assert(before.shard_ok(j));
                        if j != si {
                            assert(self.shard(j) == before.shard(j));
                        }
                    }
                }
            }
            s += 1;
        }
        proof {
            let m = after_records(old(self).contents(), recs@);
            assert forall|k: Seq<u8>| 0 <= #[trigger] shard_of(k) < NUM_SHARDS by {
                let h = crate::hash::xxh3(k);
                assert((h ^ (h >> 32)) & 255 < 256) by (bit_vector);
            }
            assert(recs@.take(n) =~= recs@);
            assert forall|p: Place| #[trigger] self.contents().dom().contains(p) <==> m.dom().contains(p) by {
                let t = shard_of(p.0);
                assert(self.shard(t).contents() == after_records(old(self).shard(t).contents(), picked(recs@, members(sh@, t, n))));
                lemma_grouped(old(self).contents(), old(self).shard(t).contents(), recs@, sh@, t, n, p);
            }
            assert forall|p: Place| self.contents().dom().contains(p) implies #[trigger] self.contents()[p] == m[p] by {
                let t = shard_of(p.0);
                assert(self.shard(t).contents() == after_records(old(self).shard(t).contents(), picked(recs@, members(sh@, t, n))));
                lemma_grouped(old(self).contents(), old(self).shard(t).contents(), recs@, sh@, t, n, p);
            }
            assert(self.contents() =~= m);
        }
    }

    /// What a read of `user_key` at `read_seq` finds, with `now_nanos` as the
    /// time that expiry goes by.
    pub fn get(&self, user_key: &[u8], read_seq: u64, now_nanos: i64) -> (r: Lookup)
        requires
            self.valid(),
        ensures
            is_lookup(self.contents(), user_key@, read_seq, now_nanos, r),
    {
        if self.num_entries == 0 {
            return Lookup::default();
        }
        let i = shard_index(user_key);
        assert(self.shard_ok(i as int));
        let r = self.shards[i].get(&self.ord, user_key, read_seq, now_nanos);
        proof {
            let m = self.shard(i as int).contents();
            assert forall|t: u64| #[trigger] self.contents().dom().contains((user_key@, t)) <==> m.dom().contains((user_key@, t)) by {}
        }
        r
    }

    /// Bytes that the writes took, about.
    pub fn approx_size(&self) -> (r: i64)
        ensures
            r == self.size(),
    {
        self.approx_size
    }

    /// How many writes there were.
    pub fn num_entries(&self) -> (r: i64)
        ensures
            r == self.count(),
    {
        self.num_entries
    }

    /// The largest sequence number written.
    pub fn max_seq(&self) -> (r: u64)
        ensures
            r == self.newest(),
    {
        self.max_seq
    }

    /// Whether nothing was written.
    pub fn is_empty(&self) -> (r: bool)
        ensures
            r == (self.count() == 0),
    {
        self.num_entries == 0
    }
}

proof fn lemma_records_finite(m: Map<Place, Payload>, recs: Seq<RecordRef>)
    requires
        m.dom().finite(),
    ensures
        after_records(m, recs).dom().finite(),
    decreases recs.len(),
{
    if recs.len() > 0 {
        lemma_records_finite(m, recs.drop_last());
    }
}

proof fn lemma_records_keep_shard(m: Map<Place, Payload>, recs: Seq<RecordRef>, s: int)
    requires
        forall|p: Place| #[trigger] m.dom().contains(p) ==> shard_of(p.0) == s,
        forall|i: int| 0 <= i < recs.len() ==> shard_of((#[trigger] recs[i]).key@) == s,
    ensures
        forall|p: Place| #[trigger] after_records(m, recs).dom().contains(p) ==> shard_of(p.0) == s,
    decreases recs.len(),
{
    if recs.len() > 0 {
        let d = recs.drop_last();
        assert forall|i: int| 0 <= i < d.len() implies shard_of((#[trigger] d[i]).key@) == s by {
            assert(d[i] == recs[i]);
        }
        lemma_records_keep_shard(m, d, s);
        assert(shard_of(recs[recs.len() - 1].key@) == s);
        assert forall|p: Place| #[trigger] after_records(m, recs).dom().contains(p) implies shard_of(p.0) == s by {
            if p != record_place(recs.last()) {
                assert(after_records(m, d).dom().contains(p));
            }
        }
    }
}

// ---------------------------------------------------------------------------
// Laws
// ---------------------------------------------------------------------------

/// A write is read back: at its own sequence number, and until it expires,
/// a reader finds the value, and finds a tombstone deleted.
pub proof fn lemma_read_your_write(
    m: Map<Place, Payload>,
    key: Seq<u8>,
    value: Seq<u8>,
    seq: u64,
    ttl: i64,
    tombstone: bool,
    single_delete: bool,
    now: i64,
    r: Lookup,
)
    requires
        is_lookup(
            m.insert((key, seq), Payload { value, ttl, flags: flags_of(tombstone, single_delete, ttl) }),
            key,
            seq,
            now,
            r,
        ),
    ensures
        r.found,
        r.seq == seq,
        r.deleted <==> tombstone || (ttl != 0 && ttl <= now),
        !r.deleted ==> r.value@ == value,
{
    let m1 = m.insert((key, seq), Payload { value, ttl, flags: flags_of(tombstone, single_delete, ttl) });
    assert(m1.dom().contains((key, seq)));
    lemma_flags_tell(tombstone, single_delete, ttl);
}

/// Two memtables with the same contents give the same answer to a read.
pub proof fn lemma_reads_tell_contents(m: Map<Place, Payload>, key: Seq<u8>, read_seq: u64, now: i64, a: Lookup, b: Lookup)
    requires
        is_lookup(m, key, read_seq, now, a),
        is_lookup(m, key, read_seq, now, b),
    ensures
        a.found == b.found,
        a.seq == b.seq,
        a.deleted == b.deleted,
        a.value@ == b.value@,
{
    if a.found {
        assert(m.dom().contains((key, a.seq)));
    }
    if b.found {
        assert(m.dom().contains((key, b.seq)));
    }
    assert(a.value@ =~= b.value@);
}

/// Whether two versions are the same.
pub open spec fn same_entry(a: Entry, b: Entry) -> bool {
    a.user_key@ == b.user_key@ && a.value@ == b.value@ && a.seq == b.seq && a.ttl == b.ttl && a.tombstone == b.tombstone && a.single_delete
        == b.single_delete
}

proof fn lemma_same_places<C: KeyComparator>(ord: C, m: Map<Place, Payload>, a: Seq<Entry>, b: Seq<Entry>, n: int)
    requires
        lists(ord, m, a),
        lists(ord, m, b),
        0 <= n <= a.len(),
    ensures
        n <= b.len(),
        forall|i: int| 0 <= i < n ==> entry_place(#[trigger] a[i]) == entry_place(b[i]),
    decreases n,
{
    if n > 0 {
        lemma_same_places(ord, m, a, b, n - 1);
        crate::place::lemma_places(ord, true);
        let k = n - 1;
        let p = entry_place(a[k]);
        assert(is_entry(m, a[k]));
        let j = choose|j: int| 0 <= j < b.len() && entry_place(#[trigger] b[j]) == p;
        if j < k {
            assert(entry_place(a[j]) == entry_place(b[j]));
            assert(crate::place::leads(ord, true, entry_place(a[j]), entry_place(a[k])));
        } else if k < j {
            let q = entry_place(b[k]);
            assert(is_entry(m, b[k]));
            assert(crate::place::leads(ord, true, q, p));
            let l = choose|l: int| 0 <= l < a.len() && entry_place(#[trigger] a[l]) == q;
            if l < k {
                assert(entry_place(a[l]) == entry_place(b[l]));
                assert(crate::place::leads(ord, true, entry_place(b[l]), entry_place(b[k])));
            } else if k < l {
                assert(crate::place::leads(ord, true, entry_place(a[k]), entry_place(a[l])));
            }
        }
    }
}

/// Two memtables with the same order and contents have the same versions in
/// their snapshots.
pub proof fn lemma_snapshots_tell_contents<C: KeyComparator>(ord: C, m: Map<Place, Payload>, a: Seq<Entry>, b: Seq<Entry>)
    requires
        lists(ord, m, a),
        lists(ord, m, b),
    ensures
        a.len() == b.len(),
        forall|i: int| 0 <= i < a.len() ==> same_entry(#[trigger] a[i], b[i]),
{
    lemma_same_places(ord, m, a, b, a.len() as int);
    lemma_same_places(ord, m, b, a, b.len() as int);
    assert forall|i: int| 0 <= i < a.len() implies same_entry(#[trigger] a[i], b[i]) by {
        assert(is_entry(m, a[i]) && is_entry(m, b[i]));
        assert(entry_place(a[i]) == entry_place(b[i]));
    }
}

/// A write changes nothing for a reader at an earlier sequence number, nor
/// for a reader of another key.
pub proof fn lemma_write_is_invisible_before(
    m: Map<Place, Payload>,
    key: Seq<u8>,
    seq: u64,
    w: Payload,
    other: Seq<u8>,
    read_seq: u64,
    now: i64,
    a: Lookup,
    b: Lookup,
)
    requires
        other != key || read_seq < seq,
        is_lookup(m, other, read_seq, now, a),
        is_lookup(m.insert((key, seq), w), other, read_seq, now, b),
    ensures
        a.found == b.found,
        a.seq == b.seq,
        a.deleted == b.deleted,
        a.value@ == b.value@,
{
    let m1 = m.insert((key, seq), w);
    assert forall|t: u64| t <= read_seq implies (#[trigger] m1.dom().contains((other, t)) <==> m.dom().contains((other, t))) by {}
    if a.found {
        assert(m.dom().contains((other, a.seq)));
        assert(m1.dom().contains((other, a.seq)));
    }
    if b.found {
        assert(m1.dom().contains((other, b.seq)));
        assert(m.dom().contains((other, b.seq)));
    }
    if a.found && b.found {
        assert(a.seq <= b.seq);
        assert(b.seq <= a.seq);
    }
    assert(a.value@ =~= b.value@);
}

/// A read finds the newest version of the key that it may see, tells that it is
/// gone if and only if it is a deletion or its time has come, and gives its
/// value otherwise; it finds nothing if and only if there is no such version.
pub proof fn lemma_read_is_of_the_newest(m: Map<Place, Payload>, key: Seq<u8>, read_seq: u64, now: i64, r: Lookup, t: u64)
    requires
        is_lookup(m, key, read_seq, now, r),
    ensures
        m.dom().contains((key, t)) && t <= read_seq ==> r.found && t <= r.seq,
        r.found ==> r.seq <= read_seq && m.dom().contains((key, r.seq)),
        r.found ==> (r.deleted <==> m[(key, r.seq)].flags & flags::TOMBSTONE != 0 || (m[(key, r.seq)].ttl != 0 && m[(key, r.seq)].ttl <= now)),
        r.found && !r.deleted ==> r.value@ == m[(key, r.seq)].value,
        r.deleted ==> r.found && r.value@.len() == 0,
        !r.found ==> r.seq == 0 && r.value@.len() == 0,
{
    if r.found {
        assert(is_visible(m.dom(), key, read_seq, r.seq));
    }
}

/// The flags of a write tell whether it deletes, whether it deletes one put
/// only and whether it expires, and nothing else.
pub proof fn lemma_flags_tell_expiry(tombstone: bool, single_delete: bool, ttl: i64)
    ensures
        flags_of(tombstone, single_delete, ttl) & flags::TOMBSTONE != 0 <==> tombstone,
        flags_of(tombstone, single_delete, ttl) & flags::SINGLE_DELETE != 0 <==> single_delete,
        flags_of(tombstone, single_delete, ttl) & flags::HAS_TTL != 0 <==> ttl != 0,
        flags_of(tombstone, single_delete, ttl) & !(flags::TOMBSTONE | flags::SINGLE_DELETE | flags::HAS_TTL) == 0,
{
    let t: u8 = if tombstone { flags::TOMBSTONE } else { 0 };
    let s: u8 = if single_delete { flags::SINGLE_DELETE } else { 0 };
    let e: u8 = if ttl != 0 { flags::HAS_TTL } else { 0 };
    let a: u8 = flags::TOMBSTONE;
    let b: u8 = flags::SINGLE_DELETE;
    let c: u8 = flags::HAS_TTL;
    let f = t | s | e;
    assert(a & b == 0 && a & c == 0 && b & c == 0) by (bit_vector)
        requires
            a == flags::TOMBSTONE,
            b == flags::SINGLE_DELETE,
            c == flags::HAS_TTL,
    ;
    assert((f & a != 0 <==> t == a) && (f & b != 0 <==> s == b) && (f & c != 0 <==> e == c) && f & !(a | b | c) == 0) by (bit_vector)
        requires
            f == t | s | e,
            t == 0 || t == a,
            s == 0 || s == b,
            e == 0 || e == c,
            a != 0 && b != 0 && c != 0,
            a & b == 0 && a & c == 0 && b & c == 0,
    ;
}

/// A batch leaves at each key and sequence what its last write there says, and
/// elsewhere what was there.
pub proof fn lemma_last_write_of_a_batch_counts(m: Map<Place, Payload>, recs: Seq<RecordRef>, i: int, p: Place)
    ensures
        0 <= i < recs.len() && (forall|j: int| i < j < recs.len() ==> (#[trigger] recs[j]).key@ != recs[i].key@ || recs[j].seq != recs[i].seq) ==> {
            let w = after_records(m, recs)[(recs[i].key@, recs[i].seq)];
            &&& after_records(m, recs).dom().contains((recs[i].key@, recs[i].seq))
            &&& w.value == recs[i].value@
            &&& w.ttl == recs[i].ttl
            &&& w.flags == flags_of(recs[i].tombstone, recs[i].single_delete, recs[i].ttl)
        },
        (forall|j: int| 0 <= j < recs.len() ==> (#[trigger] recs[j]).key@ != p.0 || recs[j].seq != p.1) ==> {
            &&& after_records(m, recs).dom().contains(p) <==> m.dom().contains(p)
            &&& m.dom().contains(p) ==> after_records(m, recs)[p] == m[p]
        },
    decreases recs.len(),
{
    if recs.len() > 0 {
        let d = recs.drop_last();
        let n = recs.len() - 1;
        lemma_last_write_of_a_batch_counts(m, d, i, p);
        if 0 <= i < recs.len() && (forall|j: int|
            i < j < recs.len() ==> (#[trigger] recs[j]).key@ != recs[i].key@ || recs[j].seq != recs[i].seq) {
            if i < n {
                assert(recs[n].key@ != recs[i].key@ || recs[n].seq != recs[i].seq);
                assert(d[i] == recs[i]);
                assert forall|j: int| i < j < d.len() implies (#[trigger] d[j]).key@ != d[i].key@ || d[j].seq != d[i].seq by {
                    assert(d[j] == recs[j]);
                }
            }
        }
        if forall|j: int| 0 <= j < recs.len() ==> (#[trigger] recs[j]).key@ != p.0 || recs[j].seq != p.1 {
            assert(recs[n].key@ != p.0 || recs[n].seq != p.1);
            assert forall|j: int| 0 <= j < d.len() implies (#[trigger] d[j]).key@ != p.0 || d[j].seq != p.1 by {
                assert(d[j] == recs[j]);
            }
        }
    }
}

/// After a batch the newest sequence is at least what it was and at least that
/// of every write, and is one of these; and each write has added its key, its
/// value and a fixed overhead to the size.
pub proof fn lemma_batch_is_counted(m: u64, recs: Seq<RecordRef>, i: int)
    ensures
        max_seq_after(m, recs) >= m,
        0 <= i < recs.len() ==> max_seq_after(m, recs) >= recs[i].seq,
        max_seq_after(m, recs) == m || exists|j: int| 0 <= j < recs.len() && (#[trigger] recs[j]).seq == max_seq_after(m, recs),
        recs.len() > 0 ==> total_footprint(recs) == total_footprint(recs.drop_last()) + recs.last().key@.len() + recs.last().value@.len() + 64,
        recs.len() == 0 ==> total_footprint(recs) == 0,
    decreases recs.len(),
{
    if recs.len() > 0 {
        let d = recs.drop_last();
        lemma_batch_is_counted(m, d, i);
        assert(recs[recs.len() - 1] == recs.last());
        if max_seq_after(m, d) != m {
            let j = choose|j: int| 0 <= j < d.len() && (#[trigger] d[j]).seq == max_seq_after(m, d);
            assert(recs[j] == d[j]);
        }
        if 0 <= i < d.len() {
            assert(recs[i] == d[i]);
        }
    }
}

/// A listing tells of a write what was written: under its key and sequence its
/// value, its time to live, and whether it deletes.
pub proof fn lemma_listing_tells_the_write(
    m: Map<Place, Payload>,
    e: Entry,
    value: Seq<u8>,
    ttl: i64,
    tombstone: bool,
    single_delete: bool,
)
    requires
        is_entry(m.insert((e.user_key@, e.seq), Payload { value, ttl, flags: flags_of(tombstone, single_delete, ttl) }), e),
    ensures
        e.value@ == value,
        e.ttl == ttl,
        e.tombstone == tombstone,
        e.single_delete == single_delete,
{
    lemma_flags_tell(tombstone, single_delete, ttl);
}

} // verus!
