//! Which generations of the write-ahead log may be deleted, and in what order.
//!
//! A prepared transaction leaves a prepare record in one generation and a
//! decision in another. Deleting the decision first would let a crash bring
//! the transaction back as undecided.

use std::collections::HashMap;

use vstd::prelude::*;
use vstd::std_specs::hash::*;

verus! {

/// A decided transaction whose records may still be on disk.
#[derive(Debug, Clone, Copy)]
struct Tombstone {
    id: [u8; 16],
    prepare_gen: u64,
    decision_gen: u64,
    prepare_deleted: bool,
    decision_deleted: bool,
}

#[verifier::ext_equal]
pub struct TombView {
    pub id: Seq<u8>,
    pub prepare_gen: u64,
    pub decision_gen: u64,
    pub prepare_deleted: bool,
    pub decision_deleted: bool,
}

spec fn tomb_view(t: Tombstone) -> TombView {
    TombView {
        id: t.id@,
        prepare_gen: t.prepare_gen,
        decision_gen: t.decision_gen,
        prepare_deleted: t.prepare_deleted,
        decision_deleted: t.decision_deleted,
    }
}

spec fn tomb_views(s: Seq<Tombstone>) -> Seq<TombView> {
    s.map_values(|t: Tombstone| tomb_view(t))
}

pub open spec fn texts(s: Seq<String>) -> Seq<Seq<char>> {
    s.map_values(|x: String| x@)
}

pub open spec fn ids(s: Seq<[u8; 16]>) -> Seq<Seq<u8>> {
    s.map_values(|x: [u8; 16]| x@)
}

pub open spec fn paths(s: Seq<(u64, Seq<char>)>) -> Seq<Seq<char>> {
    s.map_values(|x: (u64, Seq<char>)| x.1)
}

/// Flushed generations with their paths, ascending; how many undecided
/// prepares each generation holds; decided transactions still on disk.
#[verifier::ext_equal]
pub struct GenView {
    pub flushed: Seq<(u64, Seq<char>)>,
    pub live: Map<u64, usize>,
    pub tombs: Seq<TombView>,
}

pub open spec fn is_flushed(flushed: Seq<(u64, Seq<char>)>, gen: u64) -> bool {
    exists|i: int| 0 <= i < flushed.len() && (#[trigger] flushed[i]).0 == gen
}

pub open spec fn pinned(live: Map<u64, usize>, gen: u64) -> bool {
    live.dom().contains(gen) && live[gen] > 0
}

/// Whether a decided transaction keeps generation `gen`: its prepare is there
/// and its decision is neither deleted nor flushed, or its decision is there
/// and its prepare, elsewhere, is not deleted.
pub open spec fn keeps(flushed: Seq<(u64, Seq<char>)>, t: TombView, gen: u64) -> bool {
    ||| t.prepare_gen == gen && !t.decision_deleted && !is_flushed(flushed, t.decision_gen)
    ||| t.decision_gen == gen && t.prepare_gen != gen && !t.prepare_deleted
}

/// Whether generation `gen` may be deleted now.
pub open spec fn retirable(s: GenView, gen: u64) -> bool {
    &&& !pinned(s.live, gen)
    &&& forall|i: int| 0 <= i < s.tombs.len() ==> !keeps(s.flushed, #[trigger] s.tombs[i], gen)
}

/// Whether `i` is the lowest flushed generation that may be deleted.
pub open spec fn is_next(s: GenView, i: int) -> bool {
    &&& 0 <= i < s.flushed.len()
    &&& retirable(s, s.flushed[i].0)
    &&& forall|j: int| 0 <= j < i ==> !retirable(s, (#[trigger] s.flushed[j]).0)
}

/// The lowest flushed generation that may be deleted.
pub open spec fn next_of(s: GenView) -> Option<int> {
    if exists|i: int| is_next(s, i) { Some(choose|i: int| is_next(s, i)) } else { None }
}

proof fn lemma_next(s: GenView, i: int)
    requires
        is_next(s, i),
    ensures
        next_of(s) == Some(i),
{
    let k = choose|k: int| is_next(s, k);
    assert(is_next(s, k));
    if k < i {
        assert(!retirable(s, s.flushed[k].0));
    } else if i < k {
        assert(!retirable(s, s.flushed[i].0));
    }
}

/// A transaction after generation `gen` is deleted.
pub open spec fn marked(t: TombView, gen: u64) -> TombView {
    TombView {
        prepare_deleted: t.prepare_deleted || t.prepare_gen == gen,
        decision_deleted: t.decision_deleted || t.decision_gen == gen,
        ..t
    }
}

/// Whether nothing of a transaction is left on disk.
pub open spec fn gone(t: TombView) -> bool {
    t.prepare_deleted && t.decision_deleted
}

/// The transactions that are left after generation `gen` is deleted.
pub open spec fn left_after(ts: Seq<TombView>, gen: u64) -> Seq<TombView>
    decreases ts.len(),
{
    if ts.len() == 0 {
        Seq::empty()
    } else {
        let r = left_after(ts.drop_last(), gen);
        if gone(marked(ts.last(), gen)) { r } else { r.push(marked(ts.last(), gen)) }
    }
}

/// The ids of the transactions of which nothing is left after generation
/// `gen` is deleted.
pub open spec fn gone_after(ts: Seq<TombView>, gen: u64) -> Seq<Seq<u8>>
    decreases ts.len(),
{
    if ts.len() == 0 {
        Seq::empty()
    } else {
        let r = gone_after(ts.drop_last(), gen);
        if gone(marked(ts.last(), gen)) { r.push(ts.last().id) } else { r }
    }
}

/// The state after the `i`-th flushed generation is deleted.
pub open spec fn deleted(s: GenView, i: int) -> GenView {
    GenView { flushed: s.flushed.remove(i), live: s.live, tombs: left_after(s.tombs, s.flushed[i].0) }
}

/// What a sweep leaves, which generations it deletes, and whose ids it frees.
#[verifier::ext_equal]
pub struct Swept {
    pub after: GenView,
    pub deleted: Seq<(u64, Seq<char>)>,
    pub retired: Seq<Seq<u8>>,
}

/// Delete the lowest generation that may be deleted, until there is none.
pub open spec fn swept(s: GenView) -> Swept
    decreases s.flushed.len(),
    when next_of(s) is Some ==> 0 <= next_of(s)->0 < s.flushed.len()
{
    match next_of(s) {
        None => Swept { after: s, deleted: Seq::empty(), retired: Seq::empty() },
        Some(i) => {
            let r = swept(deleted(s, i));
            Swept {
                after: r.after,
                deleted: seq![s.flushed[i]] + r.deleted,
                retired: gone_after(s.tombs, s.flushed[i].0) + r.retired,
            }
        },
    }
}

pub proof fn lemma_next_in_range(s: GenView)
    ensures
        next_of(s) matches Some(i) ==> is_next(s, i),
{
}

// ---------------------------------------------------------------------------
// Laws
// ---------------------------------------------------------------------------

proof fn lemma_left_after(ts: Seq<TombView>, gen: u64, t: TombView)
    ensures
        left_after(ts, gen).contains(t) ==> exists|i: int| 0 <= i < ts.len() && t == marked(#[trigger] ts[i], gen) && !gone(t),
        ts.contains(t) && t.prepare_gen != gen && t.decision_gen != gen && !gone(t) ==> left_after(ts, gen).contains(t),
    decreases ts.len(),
{
    if ts.len() > 0 {
        let d = ts.drop_last();
        let last = ts.last();
        let r = left_after(d, gen);
        let all = left_after(ts, gen);
        lemma_left_after(d, gen, t);
        if all.contains(t) {
            let k = choose|k: int| 0 <= k < all.len() && all[k] == t;
            if k < r.len() {
                assert(r[k] == t);
                let i = choose|i: int| 0 <= i < d.len() && t == marked(#[trigger] d[i], gen) && !gone(t);
                assert(ts[i] == d[i]);
            } else {
                assert(t == marked(ts[ts.len() - 1], gen));
            }
        }
        if ts.contains(t) && t.prepare_gen != gen && t.decision_gen != gen && !gone(t) {
            let i = choose|i: int| 0 <= i < ts.len() && ts[i] == t;
            if i < d.len() {
                assert(d[i] == t);
                let k = choose|k: int| 0 <= k < r.len() && r[k] == t;
                assert(all[k] == t);
            } else {
                assert(marked(t, gen) == t);
                assert(all[all.len() - 1] == t);
            }
        }
    }
}

/// The decision of a transaction is deleted only when its prepare is.
pub open spec fn ordered(s: GenView) -> bool {
    forall|t: TombView| #[trigger] s.tombs.contains(t) && t.decision_deleted ==> t.prepare_deleted
}

/// A sweep never leaves a transaction whose decision is deleted and whose
/// prepare is not.
pub proof fn lemma_sweep_keeps_order(s: GenView)
    requires
        ordered(s),
    ensures
        ordered(swept(s).after),
    decreases s.flushed.len(),
{
    lemma_next_in_range(s);
    if let Some(i) = next_of(s) {
        let gen = s.flushed[i].0;
        let s1 = deleted(s, i);
        assert forall|t: TombView| #[trigger] s1.tombs.contains(t) && t.decision_deleted implies t.prepare_deleted by {
            lemma_left_after(s.tombs, gen, t);
            let k = choose|k: int| 0 <= k < s.tombs.len() && t == marked(#[trigger] s.tombs[k], gen) && !gone(t);
            assert(s.tombs.contains(s.tombs[k]));
            assert(!keeps(s.flushed, s.tombs[k], gen));
        }
        lemma_sweep_keeps_order(s1);
    }
}

/// In the order in which a sweep deletes generations, the prepare of a
/// transaction comes before its decision.
pub proof fn lemma_prepare_goes_before_decision(s: GenView, t: TombView, k: int)
    requires
        s.tombs.contains(t),
        !t.prepare_deleted,
        !t.decision_deleted,
        t.prepare_gen != t.decision_gen,
        0 <= k < swept(s).deleted.len(),
        swept(s).deleted[k].0 == t.decision_gen,
    ensures
        exists|j: int| 0 <= j < k && (#[trigger] swept(s).deleted[j]).0 == t.prepare_gen,
    decreases s.flushed.len(),
{
    lemma_next_in_range(s);
    match next_of(s) {
        None => {},
        Some(i) => {
            let gen = s.flushed[i].0;
            let x = choose|x: int| 0 <= x < s.tombs.len() && s.tombs[x] == t;
            assert(!keeps(s.flushed, s.tombs[x], gen));
            assert(gen != t.decision_gen);
            assert(swept(s).deleted[0] == s.flushed[i]);
            if gen == t.prepare_gen {
                assert(swept(s).deleted[0].0 == t.prepare_gen);
            } else {
                let s1 = deleted(s, i);
                lemma_left_after(s.tombs, gen, t);
                assert(swept(s).deleted[k] == swept(s1).deleted[k - 1]);
                lemma_prepare_goes_before_decision(s1, t, k - 1);
                let j = choose|j: int| 0 <= j < k - 1 && (#[trigger] swept(s1).deleted[j]).0 == t.prepare_gen;
                assert(swept(s).deleted[j + 1] == swept(s1).deleted[j]);
            }
        },
    }
}

/// A sweep deletes no generation that holds an undecided prepare, changes no
/// pin, and leaves nothing that it could still delete.
pub proof fn lemma_sweep_spares_pins(s: GenView)
    ensures
        forall|k: int| 0 <= k < swept(s).deleted.len() ==> !pinned(s.live, (#[trigger] swept(s).deleted[k]).0),
        swept(s).after.live == s.live,
        next_of(swept(s).after) is None,
    decreases s.flushed.len(),
{
    lemma_next_in_range(s);
    if let Some(i) = next_of(s) {
        let s1 = deleted(s, i);
        lemma_sweep_spares_pins(s1);
        assert forall|k: int| 0 <= k < swept(s).deleted.len() implies !pinned(s.live, (#[trigger] swept(s).deleted[k]).0) by {
            if k == 0 {
                assert(swept(s).deleted[0] == s.flushed[i]);
            } else {
                assert(swept(s).deleted[k] == swept(s1).deleted[k - 1]);
            }
        }
    }
}

/// Whether a generation is among those that were deleted.
pub open spec fn is_deleted(deleted: Seq<(u64, Seq<char>)>, gen: u64) -> bool {
    exists|k: int| 0 <= k < deleted.len() && (#[trigger] deleted[k]).0 == gen
}

/// Whether nothing of a transaction is left once these generations are deleted.
pub open spec fn gone_with(t: TombView, deleted: Seq<(u64, Seq<char>)>) -> bool {
    &&& t.prepare_deleted || is_deleted(deleted, t.prepare_gen)
    &&& t.decision_deleted || is_deleted(deleted, t.decision_gen)
}

/// Whether something is left on disk of every transaction that is held.
pub open spec fn none_gone(s: GenView) -> bool {
    forall|i: int| 0 <= i < s.tombs.len() ==> !gone(#[trigger] s.tombs[i])
}

/// Whether a transaction with this id is among some of which nothing is left.
pub open spec fn has_gone(ts: Seq<TombView>, deleted: Seq<(u64, Seq<char>)>, id: Seq<u8>) -> bool {
    exists|i: int| 0 <= i < ts.len() && (#[trigger] ts[i]).id == id && gone_with(ts[i], deleted)
}

proof fn lemma_gone_after(ts: Seq<TombView>, gen: u64, id: Seq<u8>)
    ensures
        gone_after(ts, gen).contains(id) <==> exists|i: int| 0 <= i < ts.len() && (#[trigger] ts[i]).id == id && gone(marked(ts[i], gen)),
    decreases ts.len(),
{
    if ts.len() > 0 {
        let d = ts.drop_last();
        let r = gone_after(d, gen);
        let all = gone_after(ts, gen);
        lemma_gone_after(d, gen, id);
        if all.contains(id) {
            let k = choose|k: int| 0 <= k < all.len() && all[k] == id;
            if k < r.len() {
                assert(r[k] == id);
                let i = choose|i: int| 0 <= i < d.len() && (#[trigger] d[i]).id == id && gone(marked(d[i], gen));
                assert(ts[i] == d[i]);
            } else {
                assert(ts[ts.len() - 1].id == id);
            }
        }
        if exists|i: int| 0 <= i < ts.len() && (#[trigger] ts[i]).id == id && gone(marked(ts[i], gen)) {
            let i = choose|i: int| 0 <= i < ts.len() && (#[trigger] ts[i]).id == id && gone(marked(ts[i], gen));
            if i < d.len() {
                assert(d[i] == ts[i]);
                let k = choose|k: int| 0 <= k < r.len() && r[k] == id;
                assert(all[k] == id);
            } else {
                assert(all[all.len() - 1] == id);
            }
        }
    }
}

proof fn lemma_marked_stays(ts: Seq<TombView>, gen: u64, i: int)
    requires
        0 <= i < ts.len(),
        !gone(marked(ts[i], gen)),
    ensures
        left_after(ts, gen).contains(marked(ts[i], gen)),
    decreases ts.len(),
{
    let all = left_after(ts, gen);
    if i == ts.len() - 1 {
        assert(all[all.len() - 1] == marked(ts[i], gen));
    } else {
        let d = ts.drop_last();
        let r = left_after(d, gen);
        lemma_marked_stays(d, gen, i);
        let k = choose|k: int| 0 <= k < r.len() && r[k] == marked(ts[i], gen);
        assert(all[k] == r[k]);
    }
}

proof fn lemma_deletion_keeps_open(s: GenView, i: int)
    requires
        0 <= i < s.flushed.len(),
    ensures
        none_gone(deleted(s, i)),
{
    let gen = s.flushed[i].0;
    let s1 = deleted(s, i);
    assert forall|k: int| 0 <= k < s1.tombs.len() implies !gone(#[trigger] s1.tombs[k]) by {
        assert(s1.tombs.contains(s1.tombs[k]));
        lemma_left_after(s.tombs, gen, s1.tombs[k]);
    }
}

/// The generations that a sweep deletes are what it deletes first and what it
/// deletes then.
proof fn lemma_deleted_in_turn(s: GenView, i: int, gen: u64)
    requires
        next_of(s) == Some(i),
    ensures
        is_deleted(swept(s).deleted, gen) <==> s.flushed[i].0 == gen || is_deleted(swept(deleted(s, i)).deleted, gen),
{
    lemma_next_in_range(s);
    let all = swept(s).deleted;
    let rest = swept(deleted(s, i)).deleted;
    assert(all[0] == s.flushed[i]);
    if is_deleted(all, gen) {
        let k = choose|k: int| 0 <= k < all.len() && (#[trigger] all[k]).0 == gen;
        if k > 0 {
            assert(all[k] == rest[k - 1]);
        }
    }
    if is_deleted(rest, gen) {
        let k = choose|k: int| 0 <= k < rest.len() && (#[trigger] rest[k]).0 == gen;
        assert(all[k + 1] == rest[k]);
    }
}

/// An id is freed by a sweep if and only if both generations of a transaction
/// with that id are deleted by then; and something is left of every transaction
/// that is still held.
pub proof fn lemma_sweep_retires_what_is_gone(s: GenView, id: Seq<u8>)
    requires
        none_gone(s),
    ensures
        swept(s).retired.contains(id) <==> has_gone(s.tombs, swept(s).deleted, id),
        none_gone(swept(s).after),
    decreases s.flushed.len(),
{
    lemma_next_in_range(s);
    match next_of(s) {
        None => {
            assert(!swept(s).retired.contains(id));
        },
        Some(i) => {
            let gen = s.flushed[i].0;
            let s1 = deleted(s, i);
            let ts = s.tombs;
            let all = swept(s);
            let rest = swept(s1);
            lemma_deletion_keeps_open(s, i);
            lemma_sweep_retires_what_is_gone(s1, id);
            lemma_gone_after(ts, gen, id);
            let first = gone_after(ts, gen);
            assert forall|k: int| 0 <= k < ts.len() implies gone_with(#[trigger] ts[k], all.deleted) == gone_with(marked(ts[k], gen), rest.deleted) by {
                lemma_deleted_in_turn(s, i, ts[k].prepare_gen);
                lemma_deleted_in_turn(s, i, ts[k].decision_gen);
            }
            if all.retired.contains(id) {
                let k = choose|k: int| 0 <= k < all.retired.len() && all.retired[k] == id;
                if k < first.len() {
                    assert(first[k] == id);
                    let j = choose|j: int| 0 <= j < ts.len() && (#[trigger] ts[j]).id == id && gone(marked(ts[j], gen));
                    assert(gone_with(ts[j], all.deleted));
                } else {
                    assert(rest.retired[k - first.len()] == id);
                    let j = choose|j: int| 0 <= j < s1.tombs.len() && (#[trigger] s1.tombs[j]).id == id && gone_with(s1.tombs[j], rest.deleted);
                    assert(s1.tombs.contains(s1.tombs[j]));
                    lemma_left_after(ts, gen, s1.tombs[j]);
                    let x = choose|x: int| 0 <= x < ts.len() && s1.tombs[j] == marked(#[trigger] ts[x], gen) && !gone(s1.tombs[j]);
                    assert(gone_with(ts[x], all.deleted));
                }
            }
            if has_gone(ts, all.deleted, id) {
                let x = choose|x: int| 0 <= x < ts.len() && (#[trigger] ts[x]).id == id && gone_with(ts[x], all.deleted);
                if gone(marked(ts[x], gen)) {
                    assert(first.contains(id));
                    let k = choose|k: int| 0 <= k < first.len() && first[k] == id;
                    assert(all.retired[k] == id);
                } else {
                    lemma_marked_stays(ts, gen, x);
                    let j = choose|j: int| 0 <= j < s1.tombs.len() && s1.tombs[j] == marked(ts[x], gen);
                    assert(gone_with(s1.tombs[j], rest.deleted));
                    assert(rest.retired.contains(id));
                    let k = choose|k: int| 0 <= k < rest.retired.len() && rest.retired[k] == id;
                    assert(all.retired[first.len() + k] == id);
                }
            }
        },
    }
}

/// A sweep takes as many generations from those that wait as it deletes, and
/// those are the ones that wait no longer.
pub proof fn lemma_sweep_takes_what_it_deletes(s: GenView, gen: u64)
    requires
        forall|i: int, j: int| 0 <= i < j < s.flushed.len() ==> (#[trigger] s.flushed[i]).0 != (#[trigger] s.flushed[j]).0,
    ensures
        swept(s).after.flushed.len() + swept(s).deleted.len() == s.flushed.len(),
        is_flushed(swept(s).after.flushed, gen) <==> is_flushed(s.flushed, gen) && !is_deleted(swept(s).deleted, gen),
        is_deleted(swept(s).deleted, gen) ==> is_flushed(s.flushed, gen),
    decreases s.flushed.len(),
{
    lemma_next_in_range(s);
    if let Some(i) = next_of(s) {
        let s1 = deleted(s, i);
        let f = s.flushed;
        let f1 = s1.flushed;
        assert forall|a: int, b: int| 0 <= a < b < f1.len() implies (#[trigger] f1[a]).0 != (#[trigger] f1[b]).0 by {
            assert(f1[a] == f[if a < i { a } else { a + 1 }]);
            assert(f1[b] == f[if b < i { b } else { b + 1 }]);
        }
        lemma_sweep_takes_what_it_deletes(s1, gen);
        lemma_deleted_in_turn(s, i, gen);
        if is_flushed(f1, gen) {
            let k = choose|k: int| 0 <= k < f1.len() && (#[trigger] f1[k]).0 == gen;
            let x = if k < i { k } else { k + 1 };
            assert(f[x].0 == gen);
            assert(f[i].0 != f[x].0);
        }
        if is_flushed(f, gen) && f[i].0 != gen {
            let x = choose|x: int| 0 <= x < f.len() && (#[trigger] f[x]).0 == gen;
            assert(f1[if x < i { x } else { x - 1 }].0 == gen);
        }
    }
}

/// The generation of a prepare is deleted only where that of its decision was
/// flushed, or deleted before.
pub proof fn lemma_prepare_waits_for_decision(s: GenView, t: TombView)
    requires
        forall|i: int, j: int| 0 <= i < j < s.flushed.len() ==> (#[trigger] s.flushed[i]).0 != (#[trigger] s.flushed[j]).0,
        s.tombs.contains(t),
        !t.prepare_deleted,
        is_deleted(swept(s).deleted, t.prepare_gen),
    ensures
        t.decision_deleted || is_flushed(s.flushed, t.decision_gen),
    decreases s.flushed.len(),
{
    lemma_next_in_range(s);
    match next_of(s) {
        None => {},
        Some(i) => {
            let gen = s.flushed[i].0;
            let s1 = deleted(s, i);
            let f = s.flushed;
            let f1 = s1.flushed;
            let x = choose|x: int| 0 <= x < s.tombs.len() && s.tombs[x] == t;
            assert(!keeps(s.flushed, s.tombs[x], gen));
            lemma_deleted_in_turn(s, i, t.prepare_gen);
            if gen != t.prepare_gen {
                assert(!gone(marked(t, gen)));
                lemma_marked_stays(s.tombs, gen, x);
                assert forall|a: int, b: int| 0 <= a < b < f1.len() implies (#[trigger] f1[a]).0 != (#[trigger] f1[b]).0 by {
                    assert(f1[a] == f[if a < i { a } else { a + 1 }]);
                    assert(f1[b] == f[if b < i { b } else { b + 1 }]);
                }
                lemma_prepare_waits_for_decision(s1, marked(t, gen));
                if is_flushed(f1, t.decision_gen) {
                    let k = choose|k: int| 0 <= k < f1.len() && (#[trigger] f1[k]).0 == t.decision_gen;
                    assert(f[if k < i { k } else { k + 1 }].0 == t.decision_gen);
                }
            }
        },
    }
}

/// A sweep leaves nothing for another.
pub proof fn lemma_second_sweep_is_idle(s: GenView)
    ensures
        swept(swept(s).after) == (Swept { after: swept(s).after, deleted: Seq::empty(), retired: Seq::empty() }),
{
    lemma_sweep_spares_pins(s);
}

// ---------------------------------------------------------------------------
// The state
// ---------------------------------------------------------------------------

/// Generations of the log that are flushed but not yet deleted, and what keeps
/// them.
pub struct WalGenState {
    flushed: Vec<(u64, String)>,
    live: HashMap<u64, usize>,
    tombs: Vec<Tombstone>,
}

/// What stands behind the last slash.
pub open spec fn base_name(path: Seq<u8>) -> Seq<u8>
    decreases path.len(),
{
    if path.len() == 0 {
        Seq::empty()
    } else if path.last() == 0x2F {
        Seq::empty()
    } else {
        base_name(path.drop_last()).push(path.last())
    }
}

/// The number that decimal digits stand for; nothing for another byte.
pub open spec fn digits_value(s: Seq<u8>) -> Option<nat>
    decreases s.len(),
{
    if s.len() == 0 {
        Some(0)
    } else if !(0x30 <= s.last() <= 0x39) {
        None
    } else {
        match digits_value(s.drop_last()) {
            None => None,
            Some(v) => Some(10 * v + (s.last() - 0x30) as nat),
        }
    }
}

/// A decimal number of 64 bits: at least one digit, a plus sign before them
/// allowed.
pub open spec fn parse_number(s: Seq<u8>) -> Option<u64> {
    let d = if s.len() > 0 && s[0] == 0x2B { s.skip(1) } else { s };
    if d.len() == 0 {
        None
    } else {
        match digits_value(d) {
            None => None,
            Some(v) => if v <= u64::MAX { Some(v as u64) } else { None },
        }
    }
}

/// `unified-wal-`
pub open spec fn wal_prefix() -> Seq<u8> {
    seq![0x75u8, 0x6E, 0x69, 0x66, 0x69, 0x65, 0x64, 0x2D, 0x77, 0x61, 0x6C, 0x2D]
}

/// `.log`
pub open spec fn wal_suffix() -> Seq<u8> {
    seq![0x2Eu8, 0x6C, 0x6F, 0x67]
}

/// The generation in a file name `unified-wal-<generation>.log`.
pub open spec fn gen_in_name(name: Seq<u8>) -> Option<u64> {
    if name.len() < 16 || name.take(12) != wal_prefix() || name.skip(name.len() - 4) != wal_suffix() {
        None
    } else {
        parse_number(name.subrange(12, name.len() - 4))
    }
}

proof fn lemma_base_name(path: Seq<u8>)
    ensures
        base_name(path).len() <= path.len(),
        base_name(path) == path.skip(path.len() - base_name(path).len()),
    decreases path.len(),
{
    if path.len() > 0 && path.last() != 0x2F {
        lemma_base_name(path.drop_last());
        assert(base_name(path) =~= path.skip(path.len() - base_name(path).len()));
    } else {
        assert(base_name(path) =~= path.skip(path.len() - base_name(path).len()));
    }
}

fn base_start(p: &[u8]) -> (r: usize)
    ensures
        r <= p@.len(),
        base_name(p@) == p@.skip(r as int),
{
    let mut i: usize = p.len();
    proof {
        lemma_base_name(p@);
    }
    assert(p@.take(p@.len() as int) =~= p@);
    while i > 0 && p[i - 1] != 0x2F
        invariant
            i <= p@.len(),
            base_name(p@).len() == base_name(p@.take(i as int)).len() + (p@.len() - i),
        decreases i,
    {
        assert(p@.take(i as int).drop_last() =~= p@.take(i - 1));
        i -= 1;
    }
    i
}

fn number(s: &[u8]) -> (r: Option<u64>)
    ensures
        r == parse_number(s@),
{
    let from: usize = if s.len() > 0 && s[0] == 0x2B { 1 } else { 0 };
    let ghost d = s@.skip(from as int);
    proof {
        if from == 0 {
            assert(d =~= s@);
        }
        assert(d == (if s@.len() > 0 && s@[0] == 0x2B { s@.skip(1) } else { s@ }));
    }
    if from == s.len() {
        return None;
    }
    let mut v: u64 = 0;
    let mut i: usize = from;
    let mut over: bool = false;
    assert(d.take(0) =~= Seq::empty());
    while i < s.len()
        invariant
            from <= i <= s@.len(),
            d == s@.skip(from as int),
            digits_value(d.take(i - from)) is Some,
            over ==> digits_value(d.take(i - from))->0 > u64::MAX,
            !over ==> digits_value(d.take(i - from)) == Some(v as nat),
            parse_number(s@) == (if d.len() == 0 {
                None::<u64>
            } else {
                match digits_value(d) {
                    None => None,
                    Some(v) => if v <= u64::MAX { Some(v as u64) } else { None },
                }
            }),
            d.len() > 0,
        decreases s@.len() - i,
    {
        let b = s[i];
        proof {
            assert(d.take(i - from + 1).drop_last() =~= d.take(i - from));
            assert(d.take(i - from + 1).last() == b);
        }
        if b < 0x30 || b > 0x39 {
            proof {
                lemma_bad_digit(d, i - from);
            }
            return None;
        }
        let x: u64 = (b - 0x30) as u64;
        if over || v > 0x1999_9999_9999_9999 || 10 * v > u64::MAX - x {
            over = true;
        } else {
            v = 10 * v + x;
        }
        i += 1;
    }
    assert(d.take(d.len() as int) =~= d);
    if over { None } else { Some(v) }
}

proof fn lemma_bad_digit(d: Seq<u8>, k: int)
    requires
        0 <= k < d.len(),
        !(0x30 <= d[k] <= 0x39),
    ensures
        digits_value(d) is None,
    decreases d.len(),
{
    if k < d.len() - 1 {
        lemma_bad_digit(d.drop_last(), k);
    }
}

impl Default for WalGenState {
    /// Nothing flushed, nothing pinned.
    fn default() -> (r: WalGenState)
        ensures
            r.valid(),
            r.view() == (GenView { flushed: Seq::empty(), live: Map::empty(), tombs: Seq::empty() }),
    {
        broadcast use group_hash_axioms;

        let r = WalGenState { flushed: Vec::new(), live: HashMap::new(), tombs: Vec::new() };
        assert(r.view().flushed =~= Seq::empty());
        assert(r.view().tombs =~= Seq::empty());
        r
    }
}

impl WalGenState {
    pub closed spec fn view(self) -> GenView {
        GenView {
            flushed: self.flushed@.map_values(|x: (u64, String)| (x.0, x.1@)),
            live: self.live@,
            tombs: tomb_views(self.tombs@),
        }
    }

    /// The flushed generations ascend, and something is left on disk of every
    /// transaction that is held.
    pub open spec fn valid(self) -> bool {
        &&& forall|i: int, j: int| 0 <= i < j < self.view().flushed.len() ==> (#[trigger] self.view().flushed[i]).0 < (#[trigger] self.view().flushed[j]).0
        &&& none_gone(self.view())
    }

    /// The generation that a log's path names.
    pub fn gen_of_path(path: &str) -> (r: Option<u64>)
        ensures
            r == gen_in_name(base_name(vstd::utf8::encode_utf8(path@))),
    {
        let p = path.as_bytes();
        let start = base_start(p);
        let n = p.len();
        let ghost name = base_name(p@);
        if n - start < 16 {
            return None;
        }
        let prefix: [u8; 12] = [0x75, 0x6E, 0x69, 0x66, 0x69, 0x65, 0x64, 0x2D, 0x77, 0x61, 0x6C, 0x2D];
        let suffix: [u8; 4] = [0x2E, 0x6C, 0x6F, 0x67];
        proof {
            assert(prefix@ =~= wal_prefix());
            assert(suffix@ =~= wal_suffix());
            assert(name.take(12) =~= p@.subrange(start as int, start + 12));
            assert(name.skip(name.len() - 4) =~= p@.subrange(n - 4, n as int));
            assert(name.subrange(12, name.len() - 4) =~= p@.subrange(start + 12, n - 4));
        }
        if !crate::encoding::bytes_eq(&p[start..start + 12], prefix.as_slice()) {
            return None;
        }
        if !crate::encoding::bytes_eq(&p[n - 4..n], suffix.as_slice()) {
            return None;
        }
        number(&p[start + 12..n - 4])
    }

    /// An undecided prepare stands in `gen`.
    pub fn pin(&mut self, gen: u64)
        requires
            old(self).valid(),
            old(self).view().live.dom().contains(gen) ==> old(self).view().live[gen] < usize::MAX,
        ensures
            final(self).valid(),
            final(self).view() == (GenView {
                live: old(self).view().live.insert(
                    gen,
                    if old(self).view().live.dom().contains(gen) { (old(self).view().live[gen] + 1) as usize } else { 1 },
                ),
                ..old(self).view()
            }),
    {
        broadcast use group_hash_axioms;

        let n: usize = match self.live.get(&gen) {
            Some(n) => *n + 1,
            None => 1,
        };
        self.live.insert(gen, n);
        assert(self.view().flushed == old(self).view().flushed);
    }

    /// A prepare in `prepare_gen` was decided in `decision_gen`: one pin less.
    pub fn resolved(&mut self, id: [u8; 16], prepare_gen: u64, decision_gen: u64)
        requires
            old(self).valid(),
            old(self).view().live.dom().contains(prepare_gen),
        ensures
            final(self).valid(),
            final(self).view() == (GenView {
                live: if old(self).view().live[prepare_gen] <= 1 {
                    old(self).view().live.remove(prepare_gen)
                } else {
                    old(self).view().live.insert(prepare_gen, (old(self).view().live[prepare_gen] - 1) as usize)
                },
                tombs: old(self).view().tombs.push(
                    TombView { id: id@, prepare_gen, decision_gen, prepare_deleted: false, decision_deleted: false },
                ),
                ..old(self).view()
            }),
    {
        broadcast use group_hash_axioms;

        let n: usize = match self.live.get(&prepare_gen) {
            Some(n) => *n,
            None => 0,
        };
        if n <= 1 {
            self.live.remove(&prepare_gen);
        } else {
            self.live.insert(prepare_gen, n - 1);
        }
        assert(self.live@ =~= (if old(self).live@[prepare_gen] <= 1 {
            old(self).live@.remove(prepare_gen)
        } else {
            old(self).live@.insert(prepare_gen, (old(self).live@[prepare_gen] - 1) as usize)
        }));
        self.record_pair(id, prepare_gen, decision_gen);
        assert(self.view().flushed == old(self).view().flushed);
        proof {
            let ts = self.view().tombs;
            assert forall|i: int| 0 <= i < ts.len() implies !gone(#[trigger] ts[i]) by {
                if i < old(self).view().tombs.len() {
                    assert(ts[i] == old(self).view().tombs[i]);
                }
            }
        }
    }

    /// A decided transaction found in the log: no pin is touched.
    pub fn record_pair(&mut self, id: [u8; 16], prepare_gen: u64, decision_gen: u64)
        ensures
            final(self).view() == (GenView {
                tombs: old(self).view().tombs.push(
                    TombView { id: id@, prepare_gen, decision_gen, prepare_deleted: false, decision_deleted: false },
                ),
                ..old(self).view()
            }),
            old(self).valid() ==> final(self).valid(),
    {
        let ghost t0 = self.tombs@;
        self.tombs.push(
            Tombstone { id, prepare_gen, decision_gen, prepare_deleted: false, decision_deleted: false },
        );
        assert(tomb_views(self.tombs@) =~= tomb_views(t0).push(
            TombView { id: id@, prepare_gen, decision_gen, prepare_deleted: false, decision_deleted: false },
        ));
        proof {
            if old(self).valid() {
                let ts = self.view().tombs;
                assert forall|i: int| 0 <= i < ts.len() implies !gone(#[trigger] ts[i]) by {
                    if i < t0.len() {
                        assert(ts[i] == old(self).view().tombs[i]);
                    }
                }
                assert(self.view().flushed == old(self).view().flushed);
            }
        }
    }

    fn position(&self, gen: u64) -> (r: usize)
        requires
            self.valid(),
        ensures
            r <= self.flushed@.len(),
            forall|j: int| 0 <= j < r ==> (#[trigger] self.flushed@[j]).0 < gen,
            forall|j: int| r <= j < self.flushed@.len() ==> (#[trigger] self.flushed@[j]).0 >= gen,
    {
        let mut i: usize = 0;
        while i < self.flushed.len() && self.flushed[i].0 < gen
            invariant
                i <= self.flushed@.len(),
                forall|j: int| 0 <= j < i ==> (#[trigger] self.flushed@[j]).0 < gen,
            decreases self.flushed@.len() - i,
        {
            i += 1;
        }
        proof {
            assert forall|j: int| i <= j < self.flushed@.len() implies (#[trigger] self.flushed@[j]).0 >= gen by {
                assert(self.view().flushed[j] == (self.flushed@[j].0, self.flushed@[j].1@));
                assert(self.view().flushed[i as int] == (self.flushed@[i as int].0, self.flushed@[i as int].1@));
            }
        }
        i
    }

    /// The log of `gen` at `path` is flushed; it waits here until it may be
    /// deleted. A second time for one generation replaces the path.
    pub fn mark_flushed(&mut self, gen: u64, path: String)
        requires
            old(self).valid(),
        ensures
            final(self).valid(),
            final(self).view().live == old(self).view().live,
            final(self).view().tombs == old(self).view().tombs,
            exists|i: int|
                0 <= i <= old(self).view().flushed.len() && (forall|j: int| 0 <= j < i ==> (#[trigger] old(self).view().flushed[j]).0 < gen) && (
                #[trigger] final(self).view().flushed[i]) == (gen, path@) && (if i < old(self).view().flushed.len() && old(self).view().flushed[i].0 == gen {
                    final(self).view().flushed == old(self).view().flushed.update(i, (gen, path@))
                } else {
                    final(self).view().flushed == old(self).view().flushed.insert(i, (gen, path@))
                }),
    {
        let ghost before = *self;
        let ghost f0 = self.view().flushed;
        let i = self.position(gen);
        assert(forall|j: int| 0 <= j < f0.len() ==> #[trigger] f0[j] == (before.flushed@[j].0, before.flushed@[j].1@));
        if i < self.flushed.len() && self.flushed[i].0 == gen {
            self.flushed.set(i, (gen, path));
            assert(self.view().flushed =~= f0.update(i as int, (gen, path@)));
        } else {
            self.flushed.insert(i, (gen, path));
            assert(self.view().flushed =~= f0.insert(i as int, (gen, path@)));
        }
        proof {
            let f1 = self.view().flushed;
            assert(f1[i as int] == (gen, path@));
            assert(self.view().tombs == old(self).view().tombs);
            assert(none_gone(self.view()));
            assert forall|a: int, b: int| 0 <= a < b < f1.len() implies (#[trigger] f1[a]).0 < (#[trigger] f1[b]).0 by {
                if f1.len() == f0.len() {
                    assert(f0[a].0 < f0[b].0);
                } else {
                    let x = if a < i { a } else { a - 1 };
                    let y = if b < i { b } else { b - 1 };
                    if a != i && b != i {
                        assert(f0[x].0 < f0[y].0);
                    } else if b == i {
                        assert(f0[a].0 < gen);
                    } else {
                        assert(f0[b - 1].0 >= gen);
                        assert(f0[i as int].0 != gen);
                        if b - 1 > i {
                            assert(f0[i as int].0 < f0[b - 1].0);
                        }
                    }
                }
            }
        }
    }

    /// Whether the log of `gen` waits to be deleted.
    pub fn is_withheld(&self, gen: u64) -> (r: bool)
        ensures
            r == is_flushed(self.view().flushed, gen),
    {
        let mut i: usize = 0;
        while i < self.flushed.len()
            invariant
                i <= self.flushed@.len(),
                forall|j: int| 0 <= j < i ==> (#[trigger] self.view().flushed[j]).0 != gen,
            decreases self.flushed@.len() - i,
        {
            assert(self.view().flushed[i as int] == (self.flushed@[i as int].0, self.flushed@[i as int].1@));
            if self.flushed[i].0 == gen {
                return true;
            }
            i += 1;
        }
        false
    }

    /// How many logs wait to be deleted.
    pub fn withheld(&self) -> (r: usize)
        ensures
            r == self.view().flushed.len(),
    {
        self.flushed.len()
    }

    fn is_retirable(&self, gen: u64) -> (r: bool)
        ensures
            r == retirable(self.view(), gen),
    {
        broadcast use group_hash_axioms;

        let live: usize = match self.live.get(&gen) {
            Some(n) => *n,
            None => 0,
        };
        if live > 0 {
            return false;
        }
        let mut i: usize = 0;
        while i < self.tombs.len()
            invariant
                i <= self.tombs@.len(),
                !pinned(self.view().live, gen),
                forall|j: int| 0 <= j < i ==> !keeps(self.view().flushed, #[trigger] self.view().tombs[j], gen),
            decreases self.tombs@.len() - i,
        {
            let t = self.tombs[i];
            assert(self.view().tombs[i as int] == tomb_view(t));
            if t.prepare_gen == gen && !t.decision_deleted && !self.is_withheld(t.decision_gen) {
                return false;
            }
            if t.decision_gen == gen && t.prepare_gen != gen && !t.prepare_deleted {
                return false;
            }
            i += 1;
        }
        true
    }

    fn next_retirable(&self) -> (r: Option<usize>)
        ensures
            match next_of(self.view()) {
                Some(i) => r is Some && r->0 == i && i < self.flushed@.len(),
                None => r is None,
            },
    {
        let mut i: usize = 0;
        while i < self.flushed.len()
            invariant
                i <= self.flushed@.len(),
                forall|j: int| 0 <= j < i ==> !retirable(self.view(), (#[trigger] self.view().flushed[j]).0),
            decreases self.flushed@.len() - i,
        {
            assert(self.view().flushed[i as int] == (self.flushed@[i as int].0, self.flushed@[i as int].1@));
            if self.is_retirable(self.flushed[i].0) {
                proof {
                    lemma_next(self.view(), i as int);
                }
                return Some(i);
            }
            i += 1;
        }
        None
    }

    /// Mark what deleting `gen` deletes; the ids of which nothing is left.
    fn mark_deleted(&mut self, gen: u64) -> (r: Vec<[u8; 16]>)
        ensures
            final(self).flushed == old(self).flushed,
            final(self).live == old(self).live,
            final(self).view().tombs == left_after(old(self).view().tombs, gen),
            ids(r@) == gone_after(old(self).view().tombs, gen),
    {
        let ghost all = self.view().tombs;
        let mut left: Vec<Tombstone> = Vec::new();
        let mut out: Vec<[u8; 16]> = Vec::new();
        let mut i: usize = 0;
        assert(all.take(0) =~= Seq::empty());
        assert(tomb_views(left@) =~= Seq::empty());
        assert(ids(out@) =~= Seq::empty());
        while i < self.tombs.len()
            invariant
                i <= self.tombs@.len(),
                all == tomb_views(self.tombs@),
                *self == *old(self),
                tomb_views(left@) == left_after(all.take(i as int), gen),
                ids(out@) == gone_after(all.take(i as int), gen),
            decreases self.tombs@.len() - i,
        {
            let mut t = self.tombs[i];
            let ghost t0 = tomb_view(t);
            let ghost l0 = left@;
            let ghost o0 = out@;
            proof {
                assert(all[i as int] == t0);
                assert(all.take(i + 1).drop_last() =~= all.take(i as int));
                assert(all.take(i + 1).last() == t0);
            }
            if t.prepare_gen == gen {
                t.prepare_deleted = true;
            }
            if t.decision_gen == gen {
                t.decision_deleted = true;
            }
            assert(tomb_view(t) == marked(t0, gen));
            if t.prepare_deleted && t.decision_deleted {
                out.push(t.id);
                assert(ids(out@) =~= ids(o0).push(t0.id));
            } else {
                left.push(t);
                assert(tomb_views(left@) =~= tomb_views(l0).push(marked(t0, gen)));
            }
            i += 1;
        }
        assert(all.take(all.len() as int) =~= all);
        self.tombs = left;
        out
    }

    /// Delete what may be deleted: the paths to unlink, in that order, and the
    /// ids of transactions of which nothing is left on disk.
    pub fn sweep(&mut self) -> (r: (Vec<String>, Vec<[u8; 16]>))
        requires
            old(self).valid(),
        ensures
            final(self).valid(),
            final(self).view() == swept(old(self).view()).after,
            texts(r.0@) == paths(swept(old(self).view()).deleted),
            ids(r.1@) == swept(old(self).view()).retired,
            final(self).view().flushed.len() + r.0@.len() == old(self).view().flushed.len(),
    {
        let ghost s0 = self.view();
        let mut unlink: Vec<String> = Vec::new();
        let mut retired: Vec<[u8; 16]> = Vec::new();
        let ghost mut gens: Seq<(u64, Seq<char>)> = Seq::empty();
        proof {
            assert(gens + swept(s0).deleted =~= swept(s0).deleted);
            assert(ids(retired@) + swept(s0).retired =~= swept(s0).retired);
            assert(texts(unlink@) =~= paths(gens));
        }
        loop
            invariant
                self.valid(),
                s0 == old(self).view(),
                swept(s0).after == swept(self.view()).after,
                swept(s0).deleted == gens + swept(self.view()).deleted,
                texts(unlink@) == paths(gens),
                swept(s0).retired == ids(retired@) + swept(self.view()).retired,
                self.view().flushed.len() + unlink@.len() == s0.flushed.len(),
            decreases self.view().flushed.len(),
        {
            proof {
                lemma_next_in_range(self.view());
            }
            let i = match self.next_retirable() {
                None => {
                    proof {
                        assert(gens + Seq::<(u64, Seq<char>)>::empty() =~= gens);
                        assert(ids(retired@) + Seq::<Seq<u8>>::empty() =~= ids(retired@));
                    }
                    return (unlink, retired);
                },
                Some(i) => i,
            };
            let ghost v = self.view();
            let ghost u0 = unlink@;
            let ghost r0 = ids(retired@);
            let (gen, path) = self.flushed.remove(i);
            let ghost item = (gen, path@);
            let mut gone_ids = self.mark_deleted(gen);
            let ghost more = ids(gone_ids@);
            unlink.push(path);
            proof {
                assert(v.flushed[i as int] == item);
                assert(self.view().flushed =~= v.flushed.remove(i as int));
                assert(self.view() == deleted(v, i as int));
                assert(texts(unlink@) =~= texts(u0).push(item.1));
                assert(paths(gens.push(item)) =~= paths(gens).push(item.1));
                assert(texts(unlink@) =~= paths(gens.push(item)));
                assert(gens + (seq![item] + swept(self.view()).deleted) =~= gens.push(item) + swept(self.view()).deleted);
                gens = gens.push(item);
                lemma_deletion_keeps_open(v, i as int);
                let f1 = self.view().flushed;
                assert forall|a: int, b: int| 0 <= a < b < f1.len() implies (#[trigger] f1[a]).0 < (#[trigger] f1[b]).0 by {
                    let x = if a < i { a } else { a + 1 };
                    let y = if b < i { b } else { b + 1 };
                    assert(f1[a] == v.flushed[x]);
                    assert(f1[b] == v.flushed[y]);
                }
            }
            let ghost ret0 = retired@;
            let ghost ids0 = gone_ids@;
            retired.append(&mut gone_ids);
            proof {
                assert(ids(retired@) =~= r0 + more);
                assert(r0 + (more + swept(self.view()).retired) =~= (r0 + more) + swept(self.view()).retired);
            }
        }
    }
}

// ---------------------------------------------------------------------------
// What a sweep takes
// ---------------------------------------------------------------------------

/// Whether a tombstone speaks of a generation.
pub open spec fn speaks_of(t: TombView, gen: u64) -> bool {
    t.prepare_gen == gen || t.decision_gen == gen
}

/// A flushed generation that nothing pins and no tombstone speaks of is taken.
pub proof fn lemma_sweep_takes_what_is_free(s: GenView, gen: u64)
    requires
        is_flushed(s.flushed, gen),
        !pinned(s.live, gen),
        forall|i: int| 0 <= i < s.tombs.len() ==> !speaks_of(#[trigger] s.tombs[i], gen),
    ensures
        is_deleted(swept(s).deleted, gen),
    decreases s.flushed.len(),
{
    lemma_next_in_range(s);
    match next_of(s) {
        None => {
            let k = choose|k: int| 0 <= k < s.flushed.len() && (#[trigger] s.flushed[k]).0 == gen;
            lemma_some_next(s, k);
        },
        Some(i) => {
            lemma_deleted_in_turn(s, i, gen);
            if s.flushed[i].0 != gen {
                let d = deleted(s, i);
                let k = choose|k: int| 0 <= k < s.flushed.len() && (#[trigger] s.flushed[k]).0 == gen;
                let at = if k < i { k } else { k - 1 };
                assert(d.flushed[at] == s.flushed[k]);
                assert forall|j: int| 0 <= j < d.tombs.len() implies !speaks_of(#[trigger] d.tombs[j], gen) by {
                    assert(d.tombs.contains(d.tombs[j]));
                    lemma_left_after(s.tombs, s.flushed[i].0, d.tombs[j]);
                }
                lemma_sweep_takes_what_is_free(d, gen);
            }
        },
    }
}

proof fn lemma_some_next(s: GenView, k: int)
    requires
        0 <= k < s.flushed.len(),
        retirable(s, s.flushed[k].0),
    ensures
        next_of(s) is Some,
    decreases k,
{
    if exists|j: int| 0 <= j < k && retirable(s, (#[trigger] s.flushed[j]).0) {
        let j = choose|j: int| 0 <= j < k && retirable(s, (#[trigger] s.flushed[j]).0);
        lemma_some_next(s, j);
    } else {
        assert(is_next(s, k));
    }
}

/// A generation is kept while something pins it, while it holds the prepare of
/// a transaction whose decision is neither flushed nor deleted, and while it
/// holds a decision whose prepare stands in another generation and is not
/// deleted; and for nothing else.
pub proof fn lemma_what_keeps_a_generation(s: GenView, gen: u64)
    ensures
        retirable(s, gen) <==> {
            &&& !(s.live.dom().contains(gen) && s.live[gen] > 0)
            &&& forall|i: int|
                #![trigger s.tombs[i]]
                0 <= i < s.tombs.len() && s.tombs[i].prepare_gen == gen && !s.tombs[i].decision_deleted ==> exists|k: int|
                    0 <= k < s.flushed.len() && (#[trigger] s.flushed[k]).0 == s.tombs[i].decision_gen
            &&& forall|i: int|
                #![trigger s.tombs[i]]
                0 <= i < s.tombs.len() && s.tombs[i].decision_gen == gen && s.tombs[i].prepare_gen != gen ==> s.tombs[i].prepare_deleted
        },
{
    if retirable(s, gen) {
        assert forall|i: int|
            #![trigger s.tombs[i]]
            0 <= i < s.tombs.len() && s.tombs[i].prepare_gen == gen && !s.tombs[i].decision_deleted implies exists|k: int|
            0 <= k < s.flushed.len() && (#[trigger] s.flushed[k]).0 == s.tombs[i].decision_gen by {
            assert(!keeps(s.flushed, s.tombs[i], gen));
        }
        assert forall|i: int|
            #![trigger s.tombs[i]]
            0 <= i < s.tombs.len() && s.tombs[i].decision_gen == gen && s.tombs[i].prepare_gen != gen implies s.tombs[i].prepare_deleted by {
            assert(!keeps(s.flushed, s.tombs[i], gen));
        }
    }
}

/// Deleting a generation marks what stood in it, and drops the tombstones that
/// are then wholly gone; all else about them stays.
pub proof fn lemma_deletion_marks_its_generation(ts: Seq<TombView>, gen: u64)
    ensures
        left_after(ts, gen) == ts.map_values(
            |t: TombView|
                TombView {
                    id: t.id,
                    prepare_gen: t.prepare_gen,
                    decision_gen: t.decision_gen,
                    prepare_deleted: t.prepare_deleted || t.prepare_gen == gen,
                    decision_deleted: t.decision_deleted || t.decision_gen == gen,
                },
        ).filter(|t: TombView| !(t.prepare_deleted && t.decision_deleted)),
    decreases ts.len(),
{
    reveal(Seq::filter);
    let f = |t: TombView|
        TombView {
            id: t.id,
            prepare_gen: t.prepare_gen,
            decision_gen: t.decision_gen,
            prepare_deleted: t.prepare_deleted || t.prepare_gen == gen,
            decision_deleted: t.decision_deleted || t.decision_gen == gen,
        };
    if ts.len() > 0 {
        lemma_deletion_marks_its_generation(ts.drop_last(), gen);
        assert(ts.map_values(f).drop_last() =~= ts.drop_last().map_values(f));
        assert(ts.map_values(f).last() == marked(ts.last(), gen));
    } else {
        assert(ts.map_values(f) =~= Seq::empty());
    }
}

/// The last part of a path is what follows its last slash.
pub proof fn lemma_base_name_follows_the_slash(path: Seq<u8>, k: int)
    ensures
        base_name(path) == path.skip(path.len() - base_name(path).len()),
        0 <= k < base_name(path).len() ==> base_name(path)[k] != 0x2F,
        base_name(path).len() < path.len() ==> path[path.len() - base_name(path).len() - 1] == 0x2F,
    decreases path.len(),
{
    lemma_base_name(path);
    if path.len() > 0 && path.last() != 0x2F {
        let d = path.drop_last();
        lemma_base_name_follows_the_slash(d, k);
        if base_name(d).len() < d.len() {
            assert(d[d.len() - base_name(d).len() - 1] == path[path.len() - base_name(path).len() - 1]);
        }
    }
}

/// A number is read digit by digit, the first the most significant.
pub proof fn lemma_number_reads_its_digits(s: Seq<u8>, d: u8, v: nat)
    requires
        digits_value(s) == Some(v),
        0x30 <= d <= 0x39,
    ensures
        digits_value(s.push(d)) == Some(10 * v + (d - 0x30) as nat),
        s.len() > 0 && s[0] != 0x2B && v <= u64::MAX ==> parse_number(s) == Some(v as u64),
        s.len() > 0 && v <= u64::MAX ==> parse_number(seq![0x2Bu8] + s) == Some(v as u64),
        v > u64::MAX && s.len() > 0 && s[0] != 0x2B ==> parse_number(s) is None,
{
    assert(s.push(d).drop_last() =~= s);
    let p = seq![0x2Bu8] + s;
    assert(p.skip(1) =~= s);
    assert(p[0] == 0x2B);
}

} // verus!
