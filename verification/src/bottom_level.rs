//! The bottom level of a column family: tables in the order of their keys, no
//! two of which have a key in common.

use vstd::prelude::*;

use crate::comparator::Comparator;
use crate::db::ColumnFamily;
use crate::manifest::SstMeta;
use crate::part_attach::Staged;

verus! {

/// What the bottom level keeps: each table ends before the next begins.
pub open spec fn is_level<C: Comparator>(ord: C, v: Seq<crate::manifest::SstMetaView>) -> bool {
    &&& forall|i: int| 0 <= i < v.len() ==> ord.le((#[trigger] v[i]).min_key, v[i].max_key)
    &&& forall|i: int, j: int| 0 <= i < j < v.len() ==> crate::comparator::key_lt(ord, (#[trigger] v[i]).max_key, (#[trigger] v[j]).min_key)
}

/// Whether a table that begins with `key` goes to place `p`: behind the tables
/// that begin before it.
pub open spec fn is_place_for<C: Comparator>(ord: C, v: Seq<crate::manifest::SstMetaView>, key: Seq<u8>, p: int) -> bool {
    &&& 0 <= p <= v.len()
    &&& forall|k: int| 0 <= k < p ==> crate::comparator::key_lt(ord, (#[trigger] v[k]).min_key, key)
    &&& p < v.len() ==> !crate::comparator::key_lt(ord, v[p].min_key, key)
}

/// The level once a table has gone to its place.
pub open spec fn inserted<C: Comparator>(ord: C, v: Seq<crate::manifest::SstMetaView>, t: crate::manifest::SstMetaView) -> Seq<
    crate::manifest::SstMetaView,
> {
    v.insert(choose|p: int| is_place_for(ord, v, t.min_key, p), t)
}

proof fn lemma_one_place<C: Comparator>(ord: C, v: Seq<crate::manifest::SstMetaView>, key: Seq<u8>, p: int, q: int)
    requires
        is_place_for(ord, v, key, p),
        is_place_for(ord, v, key, q),
    ensures
        p == q,
{
    if p < q {
        assert(crate::comparator::key_lt(ord, v[p].min_key, key));
    } else if q < p {
        assert(crate::comparator::key_lt(ord, v[q].min_key, key));
    }
}

proof fn lemma_some_place<C: Comparator>(ord: C, v: Seq<crate::manifest::SstMetaView>, key: Seq<u8>, from: int) -> (p: int)
    requires
        0 <= from <= v.len(),
        forall|k: int| 0 <= k < from ==> crate::comparator::key_lt(ord, (#[trigger] v[k]).min_key, key),
    ensures
        is_place_for(ord, v, key, p),
    decreases v.len() - from,
{
    if from < v.len() && crate::comparator::key_lt(ord, v[from].min_key, key) {
        lemma_some_place(ord, v, key, from + 1)
    } else {
        from
    }
}

pub open spec fn stages(v: Seq<Staged>) -> Seq<(crate::manifest::SstMetaView, bool)> {
    v.map_values(|s: Staged| (s.meta@, s.at_bottom))
}

/// The level once the first `n` of some tables have come in, as far as they go
/// down.
pub open spec fn installed<C: Comparator>(
    ord: C,
    v: Seq<crate::manifest::SstMetaView>,
    staged: Seq<(crate::manifest::SstMetaView, bool)>,
    n: int,
) -> Seq<crate::manifest::SstMetaView>
    decreases n,
{
    if n <= 0 {
        v
    } else {
        let front = installed(ord, v, staged, n - 1);
        if staged[n - 1].1 { inserted(ord, front, staged[n - 1].0) } else { front }
    }
}

/// Those of the first `n` tables that stay up, in their order.
pub open spec fn staying_up(staged: Seq<(crate::manifest::SstMetaView, bool)>, n: int) -> Seq<crate::manifest::SstMetaView>
    decreases n,
{
    if n <= 0 {
        Seq::empty()
    } else {
        let front = staying_up(staged, n - 1);
        if staged[n - 1].1 { front } else { front.push(staged[n - 1].0) }
    }
}

impl<C: Comparator> ColumnFamily<C> {
    /// Put a table to its place at the bottom level.
    pub fn insert_bottom_sorted(&mut self, t: SstMeta)
        ensures
            final(self).tables() == inserted(old(self).ord, old(self).tables(), t@),
            *final(self) == (ColumnFamily { bottom: final(self).bottom, ..*old(self) }),
    {
        let ghost v = self.tables();
        let ghost tv = t@;
        let mut p: usize = 0;
        while p < self.bottom.len() && self.ord.compare(self.bottom[p].min_key.as_slice(), t.min_key.as_slice()).is_lt()
            invariant
                p <= self.bottom@.len(),
                *self == *old(self),
                v == crate::manifest::sst_views(self.bottom@),
                tv == t@,
                forall|k: int| 0 <= k < p ==> crate::comparator::key_lt(self.ord, (#[trigger] v[k]).min_key, tv.min_key),
            decreases self.bottom@.len() - p,
        {
            assert(v[p as int] == self.bottom@[p as int]@);
            p += 1;
        }
        proof {
            if p < v.len() {
                assert(v[p as int] == self.bottom@[p as int]@);
            }
            assert(is_place_for(self.ord, v, tv.min_key, p as int));
            lemma_one_place(self.ord, v, tv.min_key, p as int, choose|q: int| is_place_for(self.ord, v, tv.min_key, q));
        }
        self.bottom.insert(p, t);
        assert(self.tables() =~= v.insert(p as int, tv));
    }

    /// Take in tables that were staged: each that goes down to its place at the
    /// bottom level. The others are handed back, for the top level.
    pub fn install(&mut self, staged: &Vec<Staged>) -> (top: Vec<SstMeta>)
        ensures
            final(self).tables() == installed(old(self).ord, old(self).tables(), stages(staged@), staged@.len() as int),
            crate::manifest::sst_views(top@) == staying_up(stages(staged@), staged@.len() as int),
            *final(self) == (ColumnFamily { bottom: final(self).bottom, ..*old(self) }),
    {
        let ghost s = stages(staged@);
        let mut top: Vec<SstMeta> = Vec::new();
        let mut i: usize = 0;
        assert(crate::manifest::sst_views(top@) =~= Seq::empty());
        while i < staged.len()
            invariant
                i <= staged@.len(),
                s == stages(staged@),
                self.tables() == installed(old(self).ord, old(self).tables(), s, i as int),
                crate::manifest::sst_views(top@) == staying_up(s, i as int),
                *self == (ColumnFamily { bottom: self.bottom, ..*old(self) }),
            decreases staged@.len() - i,
        {
            assert(s[i as int] == (staged@[i as int].meta@, staged@[i as int].at_bottom));
            let t = staged[i].meta.duplicate();
            if staged[i].at_bottom {
                self.insert_bottom_sorted(t);
            } else {
                let ghost t0 = top@;
                let ghost tv = t@;
                top.push(t);
                assert(crate::manifest::sst_views(top@) =~= crate::manifest::sst_views(t0).push(tv));
            }
            i += 1;
        }
        top
    }
}

// ---------------------------------------------------------------------------
// What every operation on parts keeps
// ---------------------------------------------------------------------------

/// A table that has no key in common with those of the level goes to its place,
/// and the level stays one.
pub proof fn lemma_insert_keeps_level<C: Comparator>(ord: C, v: Seq<crate::manifest::SstMetaView>, t: crate::manifest::SstMetaView)
    requires
        is_level(ord, v),
        ord.le(t.min_key, t.max_key),
        forall|i: int| 0 <= i < v.len() ==> crate::part_attach::are_apart(ord, t, #[trigger] v[i]),
    ensures
        is_level(ord, inserted(ord, v, t)),
{
    crate::comparator::lemma_order(ord);
    let q = lemma_some_place(ord, v, t.min_key, 0);
    let p = choose|p: int| is_place_for(ord, v, t.min_key, p);
    let w = v.insert(p, t);
    assert forall|k: int| 0 <= k < p implies crate::comparator::key_lt(ord, (#[trigger] v[k]).max_key, t.min_key) by {
        assert(crate::comparator::key_lt(ord, v[k].min_key, t.min_key));
        assert(ord.le(v[k].min_key, t.min_key));
        assert(ord.le(v[k].min_key, t.max_key));
        assert(crate::part_attach::are_apart(ord, t, v[k]));
    }
    assert forall|k: int| p <= k < v.len() implies crate::comparator::key_lt(ord, t.max_key, (#[trigger] v[k]).min_key) by {
        assert(ord.le(t.min_key, v[p].min_key));
        assert(ord.le(v[p].min_key, v[p].max_key));
        if p < k {
            assert(crate::comparator::key_lt(ord, v[p].max_key, v[k].min_key));
            assert(ord.le(v[p].max_key, v[k].min_key));
        }
        assert(ord.le(t.min_key, v[k].min_key));
        assert(ord.le(v[k].min_key, v[k].max_key));
        assert(ord.le(t.min_key, v[k].max_key));
        assert(crate::part_attach::are_apart(ord, t, v[k]));
    }
    assert forall|i: int| 0 <= i < w.len() implies ord.le((#[trigger] w[i]).min_key, w[i].max_key) by {
        assert(w[i] == (if i < p { v[i] } else if i == p { t } else { v[i - 1] }));
    }
    assert forall|i: int, j: int| 0 <= i < j < w.len() implies crate::comparator::key_lt(ord, (#[trigger] w[i]).max_key, (#[trigger] w[j]).min_key) by {
        assert(w[i] == (if i < p { v[i] } else if i == p { t } else { v[i - 1] }));
        assert(w[j] == (if j < p { v[j] } else if j == p { t } else { v[j - 1] }));
    }
}

/// The ranges of some tables.
pub open spec fn stage_ranges(staged: Seq<(crate::manifest::SstMetaView, bool)>) -> Seq<(Seq<u8>, Seq<u8>)> {
    staged.map_values(|s: (crate::manifest::SstMetaView, bool)| (s.0.min_key, s.0.max_key))
}

/// Whether tables were staged for a level: those go down that find their place
/// free.
pub open spec fn staged_for<C: Comparator>(ord: C, v: Seq<crate::manifest::SstMetaView>, staged: Seq<(crate::manifest::SstMetaView, bool)>) -> bool {
    forall|i: int| 0 <= i < staged.len() ==> (#[trigger] staged[i]).1 == crate::part_attach::goes_down(ord, v, stage_ranges(staged), i)
}

/// Where a table of the level came from: it was there, or it is one of those
/// that came in.
proof fn lemma_installed_from<C: Comparator>(
    ord: C,
    v: Seq<crate::manifest::SstMetaView>,
    staged: Seq<(crate::manifest::SstMetaView, bool)>,
    n: int,
    k: int,
)
    requires
        0 <= n <= staged.len(),
        0 <= k < installed(ord, v, staged, n).len(),
    ensures
        ({
            let t = installed(ord, v, staged, n)[k];
            ||| exists|i: int| 0 <= i < v.len() && #[trigger] v[i] == t
            ||| exists|j: int| 0 <= j < n && (#[trigger] staged[j]).1 && staged[j].0 == t
        }),
    decreases n,
{
    if n > 0 {
        let front = installed(ord, v, staged, n - 1);
        if staged[n - 1].1 {
            let t = staged[n - 1].0;
            let q = lemma_some_place(ord, front, t.min_key, 0);
            let p = choose|p: int| is_place_for(ord, front, t.min_key, p);
            let w = front.insert(p, t);
            if k < p {
                assert(w[k] == front[k]);
                lemma_installed_from(ord, v, staged, n - 1, k);
            } else if k > p {
                assert(w[k] == front[k - 1]);
                lemma_installed_from(ord, v, staged, n - 1, k - 1);
            } else {
                assert(w[k] == t);
            }
        } else {
            lemma_installed_from(ord, v, staged, n - 1, k);
        }
    }
}

/// Taking in tables that were staged for a level keeps it one.
pub proof fn lemma_attach_keeps_level<C: Comparator>(
    ord: C,
    v: Seq<crate::manifest::SstMetaView>,
    staged: Seq<(crate::manifest::SstMetaView, bool)>,
    n: int,
)
    requires
        is_level(ord, v),
        staged_for(ord, v, staged),
        forall|i: int| 0 <= i < staged.len() ==> ord.le((#[trigger] staged[i]).0.min_key, staged[i].0.max_key),
        0 <= n <= staged.len(),
    ensures
        is_level(ord, installed(ord, v, staged, n)),
    decreases n,
{
    if n > 0 {
        lemma_attach_keeps_level(ord, v, staged, n - 1);
        let front = installed(ord, v, staged, n - 1);
        let ranges = stage_ranges(staged);
        if staged[n - 1].1 {
            let t = staged[n - 1].0;
            assert(ranges[n - 1] == (t.min_key, t.max_key));
            assert forall|k: int| 0 <= k < front.len() implies crate::part_attach::are_apart(ord, t, #[trigger] front[k]) by {
                lemma_installed_from(ord, v, staged, n - 1, k);
                if exists|i: int| 0 <= i < v.len() && #[trigger] v[i] == front[k] {
                    let i = choose|i: int| 0 <= i < v.len() && #[trigger] v[i] == front[k];
                    assert(!crate::part_attach::meets_bottom(ord, v, t.min_key, t.max_key));
                    assert(!crate::part_attach::spans_meet(ord, t.min_key, t.max_key, v[i].min_key, v[i].max_key));
                } else {
                    let j = choose|j: int| 0 <= j < n - 1 && (#[trigger] staged[j]).1 && staged[j].0 == front[k];
                    assert(ranges[j] == (front[k].min_key, front[k].max_key));
                    crate::part_attach::lemma_bottom_stays_apart(ord, v, ranges, n - 1, j);
                }
            }
            lemma_insert_keeps_level(ord, front, t);
        }
    }
}

/// Taking a part out of a level keeps it one.
pub proof fn lemma_detach_keeps_level<C: Comparator>(ord: C, v: Seq<crate::manifest::SstMetaView>, partition: Seq<char>)
    requires
        is_level(ord, v),
    ensures
        is_level(ord, crate::parts::other_tables(v, partition)),
        forall|i: int| 0 <= i < crate::parts::other_tables(v, partition).len() ==> v.contains(#[trigger] crate::parts::other_tables(v, partition)[i]),
    decreases v.len(),
{
    if v.len() > 0 {
        let u = v.drop_last();
        assert forall|i: int, j: int| 0 <= i < j < u.len() implies crate::comparator::key_lt(ord, (#[trigger] u[i]).max_key, (#[trigger] u[j]).min_key) by {
            assert(u[i] == v[i] && u[j] == v[j]);
        }
        assert forall|i: int| 0 <= i < u.len() implies ord.le((#[trigger] u[i]).min_key, u[i].max_key) by {
            assert(u[i] == v[i]);
        }
        lemma_detach_keeps_level(ord, u, partition);
        let rest = crate::parts::other_tables(u, partition);
        assert forall|i: int| 0 <= i < rest.len() implies v.contains(#[trigger] rest[i]) && crate::comparator::key_lt(
            ord,
            rest[i].max_key,
            v.last().min_key,
        ) by {
            let k = choose|k: int| 0 <= k < u.len() && u[k] == rest[i];
            assert(v[k] == rest[i]);
            assert(crate::comparator::key_lt(ord, v[k].max_key, v[v.len() - 1].min_key));
        }
        assert(v[v.len() - 1] == v.last());
        assert(ord.le(v[v.len() - 1].min_key, v[v.len() - 1].max_key));
    }
}

/// Moving a part to another tier keeps the level one.
pub proof fn lemma_move_keeps_level<C: Comparator>(
    ord: C,
    db: crate::db::DB,
    cf_name: Seq<char>,
    v: Seq<crate::manifest::SstMetaView>,
    partition: Seq<char>,
    tier: Seq<char>,
    to: Seq<crate::manifest::SstMetaView>,
)
    requires
        is_level(ord, v),
        crate::move_run::numbers_differ(v),
        crate::move_run::all_moved(
            db,
            cf_name,
            crate::part_move::movable(crate::parts::partition_tables(v, partition), tier, db.tiers@),
            tier,
            to,
        ),
    ensures
        is_level(ord, crate::move_run::swapped(v, to)),
{
    let w = crate::move_run::swapped(v, to);
    assert forall|i: int| 0 <= i < v.len() implies (#[trigger] w[i]).min_key == v[i].min_key && w[i].max_key == v[i].max_key by {
        crate::move_run::lemma_move_keeps_the_rest(db, cf_name, v, partition, tier, to, i);
    }
    assert forall|i: int, j: int| 0 <= i < j < w.len() implies crate::comparator::key_lt(ord, (#[trigger] w[i]).max_key, (#[trigger] w[j]).min_key) by {
        assert(crate::comparator::key_lt(ord, v[i].max_key, v[j].min_key));
    }
    assert forall|i: int| 0 <= i < w.len() implies ord.le((#[trigger] w[i]).min_key, w[i].max_key) by {
        assert(ord.le(v[i].min_key, v[i].max_key));
    }
}

// ---------------------------------------------------------------------------
// What attaching undoes
// ---------------------------------------------------------------------------

proof fn lemma_down_were_given<C: Comparator>(
    ord: C,
    bottom: Seq<crate::manifest::SstMetaView>,
    ranges: Seq<(Seq<u8>, Seq<u8>)>,
    n: int,
    k: int,
) -> (j: int)
    requires
        0 <= n <= ranges.len(),
        0 <= k < crate::part_attach::down_ranges(ord, bottom, ranges, n).len(),
    ensures
        0 <= j < n,
        crate::part_attach::down_ranges(ord, bottom, ranges, n)[k] == ranges[j],
    decreases n,
{
    if k < crate::part_attach::down_ranges(ord, bottom, ranges, n - 1).len() {
        lemma_down_were_given(ord, bottom, ranges, n - 1, k)
    } else {
        n - 1
    }
}

proof fn lemma_split_stays_apart<C: Comparator>(ord: C, v: Seq<crate::manifest::SstMetaView>, partition: Seq<char>)
    requires
        crate::part_attach::all_apart(ord, v),
    ensures
        ({
            let part = crate::parts::partition_tables(v, partition);
            let rest = crate::parts::other_tables(v, partition);
            &&& forall|i: int| 0 <= i < part.len() ==> v.contains(#[trigger] part[i])
            &&& forall|i: int| 0 <= i < rest.len() ==> v.contains(#[trigger] rest[i])
            &&& crate::part_attach::all_apart(ord, part)
            &&& forall|i: int, j: int| 0 <= i < part.len() && 0 <= j < rest.len() ==> crate::part_attach::are_apart(ord, #[trigger] part[i], #[trigger] rest[j])
        }),
    decreases v.len(),
{
    if v.len() > 0 {
        let u = v.drop_last();
        let t = v.last();
        assert forall|i: int, j: int| 0 <= i < u.len() && 0 <= j < u.len() && i != j implies crate::part_attach::are_apart(ord, #[trigger] u[i], #[trigger] u[j]) by {
            assert(crate::part_attach::are_apart(ord, v[i], v[j]));
        }
        lemma_split_stays_apart(ord, u, partition);
        assert forall|x: crate::manifest::SstMetaView| #[trigger] u.contains(x) implies v.contains(x) && crate::part_attach::are_apart(ord, x, t) && crate::part_attach::are_apart(ord, t, x) by {
            let i = choose|i: int| 0 <= i < u.len() && u[i] == x;
            assert(v[i] == x && v[v.len() - 1] == t);
            assert(crate::part_attach::are_apart(ord, v[i], v[v.len() - 1]) && crate::part_attach::are_apart(ord, v[v.len() - 1], v[i]));
        }
        assert(v[v.len() - 1] == t);
        let part0 = crate::parts::partition_tables(u, partition);
        let rest0 = crate::parts::other_tables(u, partition);
        assert(forall|i: int| 0 <= i < part0.len() ==> u.contains(#[trigger] part0[i]));
        assert(forall|i: int| 0 <= i < rest0.len() ==> u.contains(#[trigger] rest0[i]));
    }
}

/// The ranges of some tables.
pub open spec fn table_ranges(v: Seq<crate::manifest::SstMetaView>) -> Seq<(Seq<u8>, Seq<u8>)> {
    v.map_values(|t: crate::manifest::SstMetaView| (t.min_key, t.max_key))
}

proof fn lemma_level_is_apart<C: Comparator>(ord: C, v: Seq<crate::manifest::SstMetaView>)
    requires
        is_level(ord, v),
    ensures
        crate::part_attach::all_apart(ord, v),
        table_ranges(v).no_duplicates(),
{
    crate::comparator::lemma_order(ord);
    let r = table_ranges(v);
    assert forall|i: int, j: int| 0 <= i < v.len() && 0 <= j < v.len() && i != j implies crate::part_attach::are_apart(
        ord,
        #[trigger] v[i],
        #[trigger] v[j],
    ) by {
        if i < j {
            assert(crate::comparator::key_lt(ord, v[i].max_key, v[j].min_key));
        } else {
            assert(crate::comparator::key_lt(ord, v[j].max_key, v[i].min_key));
        }
    }
    assert forall|i: int, j: int| 0 <= i < r.len() && 0 <= j < r.len() && i != j implies r[i] != r[j] by {
        assert(r[i] == (v[i].min_key, v[i].max_key) && r[j] == (v[j].min_key, v[j].max_key));
        assert(ord.le(v[i].min_key, v[i].max_key));
        assert(crate::part_attach::are_apart(ord, v[i], v[j]));
    }
}

/// A level is a part of it and the rest.
proof fn lemma_split_ranges(v: Seq<crate::manifest::SstMetaView>, partition: Seq<char>)
    ensures
        table_ranges(v).to_multiset() == table_ranges(crate::parts::other_tables(v, partition)).to_multiset().add(
            table_ranges(crate::parts::partition_tables(v, partition)).to_multiset(),
        ),
    decreases v.len(),
{
    let part = table_ranges(crate::parts::partition_tables(v, partition));
    let rest = table_ranges(crate::parts::other_tables(v, partition));
    if v.len() == 0 {
        assert(table_ranges(v) =~= Seq::empty() && part =~= Seq::empty() && rest =~= Seq::empty());
        Seq::<(Seq<u8>, Seq<u8>)>::empty().to_multiset_ensures();
        assert(table_ranges(v).to_multiset() =~= rest.to_multiset().add(part.to_multiset()));
    } else {
        let u = v.drop_last();
        let t = (v.last().min_key, v.last().max_key);
        let part0 = table_ranges(crate::parts::partition_tables(u, partition));
        let rest0 = table_ranges(crate::parts::other_tables(u, partition));
        lemma_split_ranges(u, partition);
        assert(table_ranges(v) =~= table_ranges(u).push(t));
        table_ranges(u).to_multiset_ensures();
        part0.to_multiset_ensures();
        rest0.to_multiset_ensures();
        if crate::parts::of_partition(v.last(), partition) {
            assert(part =~= part0.push(t));
        } else {
            assert(rest =~= rest0.push(t));
        }
        assert(table_ranges(v).to_multiset() =~= rest.to_multiset().add(part.to_multiset()));
    }
}

/// The ranges of a level into which tables came are its own and theirs.
proof fn lemma_installed_ranges<C: Comparator>(
    ord: C,
    v: Seq<crate::manifest::SstMetaView>,
    staged: Seq<(crate::manifest::SstMetaView, bool)>,
    n: int,
)
    requires
        0 <= n <= staged.len(),
        forall|i: int| 0 <= i < n ==> (#[trigger] staged[i]).1,
    ensures
        table_ranges(installed(ord, v, staged, n)).to_multiset() == table_ranges(v).to_multiset().add(
            stage_ranges(staged).take(n).to_multiset(),
        ),
    decreases n,
{
    let ranges = stage_ranges(staged);
    if n == 0 {
        assert(ranges.take(0) =~= Seq::empty());
        Seq::<(Seq<u8>, Seq<u8>)>::empty().to_multiset_ensures();
        assert(table_ranges(v).to_multiset() =~= table_ranges(v).to_multiset().add(ranges.take(0).to_multiset()));
    } else {
        lemma_installed_ranges(ord, v, staged, n - 1);
        let front = installed(ord, v, staged, n - 1);
        let t = staged[n - 1].0;
        let x = (t.min_key, t.max_key);
        assert(staged[n - 1].1);
        let q = lemma_some_place(ord, front, t.min_key, 0);
        let p = choose|p: int| is_place_for(ord, front, t.min_key, p);
        assert(table_ranges(front.insert(p, t)) =~= table_ranges(front).insert(p, x));
        vstd::seq_lib::to_multiset_insert(table_ranges(front), p, x);
        assert(ranges.take(n) =~= ranges.take(n - 1).push(x));
        ranges.take(n - 1).to_multiset_ensures();
        assert(table_ranges(front.insert(p, t)).to_multiset() =~= table_ranges(v).to_multiset().add(ranges.take(n).to_multiset()));
    }
}

/// Two levels with the same ranges have them in the same order.
proof fn lemma_level_is_canonical<C: Comparator>(ord: C, a: Seq<crate::manifest::SstMetaView>, b: Seq<crate::manifest::SstMetaView>)
    requires
        is_level(ord, a),
        is_level(ord, b),
        table_ranges(a).to_multiset() == table_ranges(b).to_multiset(),
    ensures
        table_ranges(a) == table_ranges(b),
    decreases a.len(),
{
    crate::comparator::lemma_order(ord);
    let x = table_ranges(a);
    let y = table_ranges(b);
    x.to_multiset_ensures();
    y.to_multiset_ensures();
    if a.len() > 0 {
        let n = a.len() - 1;
        let s = x.last();
        let t = y.last();
        assert(x.contains(s));
        assert(y.contains(t));
        assert(y.to_multiset().count(s) > 0);
        assert(x.to_multiset().count(t) > 0);
        let i = choose|i: int| 0 <= i < y.len() && y[i] == s;
        let j = choose|j: int| 0 <= j < x.len() && x[j] == t;
        assert(s == (a[n].min_key, a[n].max_key) && t == (b[n].min_key, b[n].max_key));
        assert(y[i] == (b[i].min_key, b[i].max_key) && x[j] == (a[j].min_key, a[j].max_key));
        if i < n && j < n {
            assert(crate::comparator::key_lt(ord, b[i].max_key, b[n].min_key));
            assert(crate::comparator::key_lt(ord, a[j].max_key, a[n].min_key));
            assert(ord.le(a[n].min_key, a[n].max_key));
            assert(ord.le(b[n].min_key, b[n].max_key));
            assert(ord.le(s.1, t.0) && ord.le(t.0, t.1) && !ord.le(s.0, t.1));
            assert(ord.le(s.0, s.1));
        }
        assert(s == t);
        let p = a.drop_last();
        let q = b.drop_last();
        assert(table_ranges(p) =~= x.remove(n));
        assert(table_ranges(q) =~= y.remove(n));
        assert forall|k: int, l: int| 0 <= k < l < p.len() implies crate::comparator::key_lt(ord, (#[trigger] p[k]).max_key, (#[trigger] p[l]).min_key) by {
            assert(p[k] == a[k] && p[l] == a[l]);
        }
        assert forall|k: int, l: int| 0 <= k < l < q.len() implies crate::comparator::key_lt(ord, (#[trigger] q[k]).max_key, (#[trigger] q[l]).min_key) by {
            assert(q[k] == b[k] && q[l] == b[l]);
        }
        assert forall|k: int| 0 <= k < p.len() implies ord.le((#[trigger] p[k]).min_key, p[k].max_key) by {
            assert(p[k] == a[k]);
        }
        assert forall|k: int| 0 <= k < q.len() implies ord.le((#[trigger] q[k]).min_key, q[k].max_key) by {
            assert(q[k] == b[k]);
        }
        lemma_level_is_canonical(ord, p, q);
        assert(x =~= table_ranges(p).push(s));
        assert(y =~= table_ranges(q).push(t));
    } else {
        assert(x =~= y);
    }
}

/// A part that was taken out of a level goes down again, each of its tables, in
/// whatever order they are brought in.
proof fn lemma_part_goes_down<C: Comparator>(
    ord: C,
    v: Seq<crate::manifest::SstMetaView>,
    partition: Seq<char>,
    ranges: Seq<(Seq<u8>, Seq<u8>)>,
    i: int,
)
    requires
        is_level(ord, v),
        ranges.to_multiset() == table_ranges(crate::parts::partition_tables(v, partition)).to_multiset(),
        0 <= i < ranges.len(),
    ensures
        crate::part_attach::goes_down(ord, crate::parts::other_tables(v, partition), ranges, i),
        ord.le(ranges[i].0, ranges[i].1),
{
    let part = crate::parts::partition_tables(v, partition);
    let rest = crate::parts::other_tables(v, partition);
    let pr = table_ranges(part);
    lemma_level_is_apart(ord, v);
    lemma_split_stays_apart(ord, v, partition);
    ranges.to_multiset_ensures();
    pr.to_multiset_ensures();
    let a = lemma_range_of_part(ranges, part, i);
    assert(v.contains(part[a]));
    let c = choose|c: int| 0 <= c < v.len() && v[c] == part[a];
    assert(ord.le(v[c].min_key, v[c].max_key));
    if crate::part_attach::meets_bottom(ord, rest, ranges[i].0, ranges[i].1) {
        let j = choose|j: int|
            0 <= j < rest.len() && crate::part_attach::spans_meet(ord, ranges[i].0, ranges[i].1, (#[trigger] rest[j]).min_key, rest[j].max_key);
        assert(crate::part_attach::are_apart(ord, part[a], rest[j]));
    }
    let d = crate::part_attach::down_ranges(ord, rest, ranges, i);
    if crate::part_attach::meets_any(ord, d, ranges[i].0, ranges[i].1) {
        let k = choose|k: int| 0 <= k < d.len() && crate::part_attach::spans_meet(ord, ranges[i].0, ranges[i].1, (#[trigger] d[k]).0, d[k].1);
        let j = lemma_down_were_given(ord, rest, ranges, i, k);
        let b = lemma_range_of_part(ranges, part, j);
        assert(a != b) by {
            if a == b {
                lemma_part_ranges_differ(ord, v, partition);
                pr.lemma_multiset_has_no_duplicates();
                ranges.lemma_multiset_has_no_duplicates_conv();
                assert(ranges[i] == ranges[j]);
            }
        }
        assert(crate::part_attach::are_apart(ord, part[a], part[b]));
    }
}

proof fn lemma_part_ranges_differ<C: Comparator>(ord: C, v: Seq<crate::manifest::SstMetaView>, partition: Seq<char>)
    requires
        is_level(ord, v),
    ensures
        table_ranges(crate::parts::partition_tables(v, partition)).no_duplicates(),
{
    crate::comparator::lemma_order(ord);
    lemma_level_is_apart(ord, v);
    lemma_split_stays_apart(ord, v, partition);
    let part = crate::parts::partition_tables(v, partition);
    let r = table_ranges(part);
    assert forall|i: int, j: int| 0 <= i < r.len() && 0 <= j < r.len() && i != j implies r[i] != r[j] by {
        assert(v.contains(part[i]));
        let c = choose|c: int| 0 <= c < v.len() && v[c] == part[i];
        assert(ord.le(v[c].min_key, v[c].max_key));
        assert(r[i] == (part[i].min_key, part[i].max_key) && r[j] == (part[j].min_key, part[j].max_key));
        assert(crate::part_attach::are_apart(ord, part[i], part[j]));
    }
}

proof fn lemma_range_of_part(ranges: Seq<(Seq<u8>, Seq<u8>)>, part: Seq<crate::manifest::SstMetaView>, i: int) -> (a: int)
    requires
        ranges.to_multiset() == table_ranges(part).to_multiset(),
        0 <= i < ranges.len(),
    ensures
        0 <= a < part.len(),
        ranges[i] == (part[a].min_key, part[a].max_key),
{
    ranges.to_multiset_ensures();
    let pr = table_ranges(part);
    pr.to_multiset_ensures();
    assert(ranges.contains(ranges[i]));
    assert(pr.to_multiset().count(ranges[i]) > 0);
    choose|a: int| 0 <= a < pr.len() && pr[a] == ranges[i]
}

/// Attaching undoes detaching: once the tables of a part that was taken out have
/// come in again, in whatever order, the level is as it was, range by range, and
/// no table stays up.
pub proof fn lemma_attach_undoes_detach<C: Comparator>(
    ord: C,
    v: Seq<crate::manifest::SstMetaView>,
    partition: Seq<char>,
    staged: Seq<(crate::manifest::SstMetaView, bool)>,
)
    requires
        is_level(ord, v),
        staged_for(ord, crate::parts::other_tables(v, partition), staged),
        stage_ranges(staged).to_multiset() == table_ranges(crate::parts::partition_tables(v, partition)).to_multiset(),
    ensures
        table_ranges(installed(ord, crate::parts::other_tables(v, partition), staged, staged.len() as int)) == table_ranges(v),
        forall|i: int| 0 <= i < staged.len() ==> (#[trigger] staged[i]).1,
{
    let rest = crate::parts::other_tables(v, partition);
    let ranges = stage_ranges(staged);
    let n = staged.len() as int;
    assert forall|i: int| 0 <= i < n implies (#[trigger] staged[i]).1 && ord.le(staged[i].0.min_key, staged[i].0.max_key) by {
        lemma_part_goes_down(ord, v, partition, ranges, i);
        assert(ranges[i] == (staged[i].0.min_key, staged[i].0.max_key));
    }
    lemma_detach_keeps_level(ord, v, partition);
    lemma_attach_keeps_level(ord, rest, staged, n);
    lemma_installed_ranges(ord, rest, staged, n);
    lemma_split_ranges(v, partition);
    assert(ranges.take(n) =~= ranges);
    lemma_level_is_canonical(ord, installed(ord, rest, staged, n), v);
}

/// Installing puts the tables that go down at the bottom level, beside those
/// that were there, and hands back the others in order.
pub proof fn lemma_install_parts_the_tables<C: Comparator>(
    ord: C,
    v: Seq<crate::manifest::SstMetaView>,
    staged: Seq<(crate::manifest::SstMetaView, bool)>,
    n: int,
)
    requires
        0 <= n <= staged.len(),
    ensures
        installed(ord, v, staged, n).to_multiset() == v.to_multiset().add(
            staged.take(n).filter(|s: (crate::manifest::SstMetaView, bool)| s.1).map_values(
                |s: (crate::manifest::SstMetaView, bool)| s.0,
            ).to_multiset(),
        ),
        staying_up(staged, n) == staged.take(n).filter(|s: (crate::manifest::SstMetaView, bool)| !s.1).map_values(
            |s: (crate::manifest::SstMetaView, bool)| s.0,
        ),
    decreases n,
{
    reveal(Seq::filter);
    broadcast use vstd::seq_lib::group_to_multiset_ensures;

    let p = |s: (crate::manifest::SstMetaView, bool)| s.1;
    let q = |s: (crate::manifest::SstMetaView, bool)| !s.1;
    let f = |s: (crate::manifest::SstMetaView, bool)| s.0;
    if n <= 0 {
        assert(staged.take(0) =~= Seq::empty());
        let e = Seq::<(crate::manifest::SstMetaView, bool)>::empty();
        assert(e.filter(p) =~= e);
        assert(e.filter(q) =~= e);
        assert(e.map_values(f) =~= Seq::empty());
        assert(v.to_multiset().add(e.filter(p).map_values(f).to_multiset()) =~= v.to_multiset());
    } else {
        lemma_install_parts_the_tables(ord, v, staged, n - 1);
        let a = staged.take(n);
        let b = staged.take(n - 1);
        let x = staged[n - 1];
        assert(a.drop_last() =~= b);
        assert(a.last() == x);
        let front = installed(ord, v, staged, n - 1);
        if x.1 {
            assert(a.filter(p) == b.filter(p).push(x));
            assert(a.filter(p).map_values(f) =~= b.filter(p).map_values(f).push(x.0));
            lemma_some_place(ord, front, x.0.min_key, 0);
            let c = choose|c: int| is_place_for(ord, front, x.0.min_key, c);
            assert(is_place_for(ord, front, x.0.min_key, c));
            vstd::seq_lib::to_multiset_insert(front, c, x.0);
            assert(installed(ord, v, staged, n).to_multiset() =~= v.to_multiset().add(a.filter(p).map_values(f).to_multiset()));
        } else {
            assert(a.filter(q) == b.filter(q).push(x));
            assert(a.filter(q).map_values(f) =~= b.filter(q).map_values(f).push(x.0));
        }
    }
}

/// A table goes behind those with a smaller first key, and before the others.
pub proof fn lemma_table_goes_in_order<C: Comparator>(ord: C, v: Seq<crate::manifest::SstMetaView>, t: crate::manifest::SstMetaView, p: int)
    requires
        0 <= p <= v.len(),
        forall|k: int| 0 <= k < p ==> !ord.le(t.min_key, (#[trigger] v[k]).min_key),
        forall|k: int| p <= k < v.len() ==> ord.le(t.min_key, (#[trigger] v[k]).min_key),
    ensures
        inserted(ord, v, t) == v.take(p).push(t) + v.skip(p),
{
    crate::comparator::lemma_order(ord);
    assert(is_place_for(ord, v, t.min_key, p));
    let c = choose|c: int| is_place_for(ord, v, t.min_key, c);
    lemma_one_place(ord, v, t.min_key, p, c);
    assert(v.insert(p, t) =~= v.take(p).push(t) + v.skip(p));
}

} // verus!
