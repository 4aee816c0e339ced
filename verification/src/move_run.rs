//! The steps of moving a part: copy, make durable, flip the catalog, delete.

use vstd::prelude::*;

use crate::comparator::Comparator;
use crate::db::ColumnFamily;
use crate::error::OndaError;
use crate::manifest::SstMeta;
use crate::part_move::{MovePhase, Relocation};

verus! {

/// How far a move has come.
#[derive(Debug, Clone, Copy, PartialEq, Eq, Structural)]
pub enum MoveStage {
    /// Objects are being copied.
    Copying,
    /// Every object is durable where it goes.
    Durable,
    /// The catalog names the destination, and is not durable yet.
    Named,
    /// The catalog durably names the destination.
    Flipped,
    /// The sources are gone, as far as nobody holds them.
    Done,
    /// The move was given up: the sources stay.
    Stopped,
}

/// What is to be done next.
#[derive(Debug, Clone, Copy, PartialEq, Eq, Structural)]
pub enum MoveAction {
    /// Copy this object.
    Copy(usize),
    /// Report that every object is durable.
    ReportDurable,
    /// Name the destination in the catalog.
    Flip,
    /// Make the catalog durable.
    Persist,
    /// Delete the sources.
    DeleteSources,
    /// Nothing.
    Nothing,
}

/// A move under way.
#[derive(Debug)]
pub struct MoveRun {
    plan: Relocation,
    objects: Vec<(String, String)>,
    copied: usize,
    stage: MoveStage,
}

/// From where to where each file of a relocation goes: the key log of a table,
/// then its value log where it has one.
pub open spec fn objects_of(r: Relocation, vlogs: Seq<bool>, n: int) -> Seq<(Seq<char>, Seq<char>)>
    decreases n,
{
    if n <= 0 {
        Seq::empty()
    } else {
        let front = objects_of(r, vlogs, n - 1);
        let s = r.sources@[n - 1]@;
        let t = r.targets@[n - 1]@;
        let k = front.push((s, t));
        if vlogs[n - 1] {
            k.push((crate::sst_format::vlog_path_text(s), crate::sst_format::vlog_path_text(t)))
        } else {
            k
        }
    }
}

pub open spec fn object_views(v: Seq<(String, String)>) -> Seq<(Seq<char>, Seq<char>)> {
    v.map_values(|p: (String, String)| (p.0@, p.1@))
}

/// Whether table `j` is the first with this number.
pub open spec fn first_with(v: Seq<crate::manifest::SstMetaView>, id: u64, j: int) -> bool {
    &&& 0 <= j < v.len()
    &&& v[j].id == id
    &&& forall|k: int| 0 <= k < j ==> (#[trigger] v[k]).id != id
}

/// A table, or the one that takes its place.
pub open spec fn replaced(t: crate::manifest::SstMetaView, to: Seq<crate::manifest::SstMetaView>) -> crate::manifest::SstMetaView {
    if exists|j: int| first_with(to, t.id, j) {
        to[choose|j: int| first_with(to, t.id, j)]
    } else {
        t
    }
}

/// The tables once those with the same numbers have taken their places.
pub open spec fn swapped(v: Seq<crate::manifest::SstMetaView>, to: Seq<crate::manifest::SstMetaView>) -> Seq<crate::manifest::SstMetaView> {
    v.map_values(|t: crate::manifest::SstMetaView| replaced(t, to))
}

impl<C: Comparator> ColumnFamily<C> {
    /// Put tables in the places of those with the same numbers.
    pub fn swap_bottom_tables(&mut self, to: &Vec<SstMeta>)
        ensures
            final(self).tables() == swapped(old(self).tables(), crate::manifest::sst_views(to@)),
            *final(self) == (ColumnFamily { bottom: final(self).bottom, ..*old(self) }),
    {
        let ghost v = self.tables();
        let ghost tv = crate::manifest::sst_views(to@);
        let ghost was = *self;
        let mut i: usize = 0;
        while i < self.bottom.len()
            invariant
                i <= self.bottom@.len(),
                self.bottom@.len() == v.len(),
                v == was.tables(),
                tv == crate::manifest::sst_views(to@),
                forall|k: int| 0 <= k < i ==> (#[trigger] self.bottom@[k])@ == replaced(v[k], tv),
                forall|k: int| i <= k < v.len() ==> (#[trigger] self.bottom@[k])@ == v[k],
                *self == (ColumnFamily { bottom: self.bottom, ..was }),
            decreases self.bottom@.len() - i,
        {
            let id = self.bottom[i].id;
            assert(v[i as int].id == id);
            let mut j: usize = 0;
            while j < to.len() && to[j].id != id
                invariant
                    j <= to@.len(),
                    tv == crate::manifest::sst_views(to@),
                    forall|k: int| 0 <= k < j ==> (#[trigger] tv[k]).id != id,
                decreases to@.len() - j,
            {
                assert(tv[j as int].id == to@[j as int].id);
                j += 1;
            }
            if j < to.len() {
                assert(tv[j as int].id == to@[j as int].id);
                let t = to[j].duplicate();
                proof {
                    assert(first_with(tv, id, j as int));
                    let c = choose|c: int| first_with(tv, id, c);
                    assert(c == j) by {
                        if c < j {
                            assert(tv[c].id == id);
                        } else if j < c {
                            assert(tv[j as int].id == id);
                        }
                    }
                }
                self.bottom.set(i, t);
            } else {
                assert(!(exists|c: int| first_with(tv, id, c)));
            }
            i += 1;
        }
        assert(self.tables() =~= swapped(v, tv));
    }
}

impl MoveRun {
    pub closed spec fn stage_of(self) -> MoveStage {
        self.stage
    }

    pub closed spec fn plan_of(self) -> Relocation {
        self.plan
    }

    pub closed spec fn objects_view(self) -> Seq<(Seq<char>, Seq<char>)> {
        object_views(self.objects@)
    }

    /// How many objects are durable where they go.
    pub closed spec fn durable(self) -> int {
        self.copied as int
    }

    /// What every move keeps: the catalog is flipped, and sources are deleted,
    /// only where every object is durable.
    pub closed spec fn wf(self) -> bool {
        &&& self.copied <= self.objects@.len()
        &&& self.objects@.len() <= usize::MAX
        &&& !(self.stage is Copying || self.stage is Stopped) ==> self.copied == self.objects@.len()
    }

    /// The move of a part, for whose tables `vlogs` says which have a value log.
    pub fn begin(plan: Relocation, vlogs: &Vec<bool>) -> (r: MoveRun)
        requires
            plan.sources@.len() == plan.from@.len(),
            plan.targets@.len() == plan.from@.len(),
            vlogs@.len() == plan.from@.len(),
            2 * plan.from@.len() <= usize::MAX,
        ensures
            r.wf(),
            r.plan_of() == plan,
            r.objects_view() == objects_of(plan, vlogs@, plan.from@.len() as int),
            r.durable() == 0,
            r.stage_of() == (if plan.from@.len() == 0 { MoveStage::Done } else { MoveStage::Copying }),
    {
        let n = plan.from.len();
        let mut objects: Vec<(String, String)> = Vec::new();
        let mut i: usize = 0;
        assert(object_views(objects@) =~= Seq::empty());
        while i < n
            invariant
                i <= n,
                n == plan.from@.len(),
                plan.sources@.len() == n,
                plan.targets@.len() == n,
                vlogs@.len() == n,
                objects@.len() <= 2 * i,
                2 * n <= usize::MAX,
                object_views(objects@) == objects_of(plan, vlogs@, i as int),
            decreases n - i,
        {
            let ghost o0 = objects@;
            let s = plan.sources[i].clone();
            let t = plan.targets[i].clone();
            let sv = crate::sst_format::vlog_path_for(s.as_str());
            let tv = crate::sst_format::vlog_path_for(t.as_str());
            objects.push((s, t));
            assert(object_views(objects@) =~= object_views(o0).push((s@, t@)));
            if vlogs[i] {
                let ghost o1 = objects@;
                objects.push((sv, tv));
                assert(object_views(objects@) =~= object_views(o1).push((sv@, tv@)));
            }
            i += 1;
        }
        let stage = if n == 0 { MoveStage::Done } else { MoveStage::Copying };
        MoveRun { plan, objects, copied: 0, stage }
    }

    /// The relocation.
    pub fn plan(&self) -> (r: &Relocation)
        ensures
            *r == self.plan_of(),
    {
        &self.plan
    }

    /// What is to be done next.
    pub fn next_action(&self) -> (r: MoveAction)
        requires
            self.wf(),
        ensures
            r == (match self.stage_of() {
                MoveStage::Copying => if self.durable() < self.objects_view().len() {
                    MoveAction::Copy(self.durable() as usize)
                } else {
                    MoveAction::ReportDurable
                },
                MoveStage::Durable => MoveAction::Flip,
                MoveStage::Named => MoveAction::Persist,
                MoveStage::Flipped => MoveAction::DeleteSources,
                MoveStage::Done => MoveAction::Nothing,
                MoveStage::Stopped => MoveAction::Nothing,
            }),
    {
        match self.stage {
            MoveStage::Copying => if self.copied < self.objects.len() {
                MoveAction::Copy(self.copied)
            } else {
                MoveAction::ReportDurable
            },
            MoveStage::Durable => MoveAction::Flip,
            MoveStage::Named => MoveAction::Persist,
            MoveStage::Flipped => MoveAction::DeleteSources,
            MoveStage::Done => MoveAction::Nothing,
            MoveStage::Stopped => MoveAction::Nothing,
        }
    }

    /// From where to where object `i` goes.
    pub fn object(&self, i: usize) -> (r: (&str, &str))
        requires
            i < self.objects_view().len(),
        ensures
            (r.0@, r.1@) == self.objects_view()[i as int],
    {
        (self.objects[i].0.as_str(), self.objects[i].1.as_str())
    }

    /// The boundary that the object being copied has come to once it has
    /// received all its bytes.
    pub fn copy_phase(&self) -> (r: MovePhase)
        requires
            self.wf(),
            self.stage_of() is Copying,
            self.durable() < self.objects_view().len(),
        ensures
            r == (MovePhase::CopyComplete {
                object_index: (self.durable() + 1) as usize,
                object_count: self.objects_view().len() as usize,
            }),
    {
        MovePhase::CopyComplete { object_index: self.copied + 1, object_count: self.objects.len() }
    }

    /// Take note of how copying an object ended, the observer heard: it is
    /// durable, or the move is given up.
    pub fn copied(&mut self, outcome: Result<(), OndaError>) -> (r: Result<(), OndaError>)
        requires
            old(self).wf(),
            old(self).stage_of() is Copying,
            old(self).durable() < old(self).objects_view().len(),
        ensures
            final(self).wf(),
            r == outcome,
            final(self).plan_of() == old(self).plan_of(),
            final(self).objects_view() == old(self).objects_view(),
            final(self).durable() == old(self).durable() + (if outcome is Ok { 1int } else { 0 }),
            final(self).stage_of() == (if outcome is Ok { MoveStage::Copying } else { MoveStage::Stopped }),
    {
        if outcome.is_ok() {
            self.copied = self.copied + 1;
        } else {
            self.stage = MoveStage::Stopped;
        }
        outcome
    }

    /// Every object is durable, and this is what the observer said.
    pub fn synced(&mut self, answer: Result<(), OndaError>) -> (r: Result<(), OndaError>)
        requires
            old(self).wf(),
            old(self).stage_of() is Copying,
            old(self).durable() == old(self).objects_view().len(),
        ensures
            final(self).wf(),
            r == answer,
            final(self).plan_of() == old(self).plan_of(),
            final(self).objects_view() == old(self).objects_view(),
            final(self).durable() == old(self).durable(),
            final(self).stage_of() == (if answer is Ok { MoveStage::Durable } else { MoveStage::Stopped }),
    {
        self.stage = if answer.is_ok() { MoveStage::Durable } else { MoveStage::Stopped };
        answer
    }

    /// Name the destination in the catalog.
    pub fn flip<C: Comparator>(&mut self, cf: &mut ColumnFamily<C>)
        requires
            old(self).wf(),
            old(self).stage_of() is Durable,
        ensures
            final(self).wf(),
            final(self).stage_of() is Named,
            final(self).plan_of() == old(self).plan_of(),
            final(self).objects_view() == old(self).objects_view(),
            final(self).durable() == old(self).durable(),
            final(cf).tables() == swapped(old(cf).tables(), crate::manifest::sst_views(old(self).plan_of().to@)),
            *final(cf) == (ColumnFamily { bottom: final(cf).bottom, ..*old(cf) }),
    {
        cf.swap_bottom_tables(&self.plan.to);
        self.stage = MoveStage::Named;
    }

    /// Take note of how making the catalog durable ended. Where it failed, the
    /// sources stay.
    pub fn persisted(&mut self, outcome: Result<(), OndaError>) -> (r: Result<(), OndaError>)
        requires
            old(self).wf(),
            old(self).stage_of() is Named,
        ensures
            final(self).wf(),
            r == outcome,
            final(self).plan_of() == old(self).plan_of(),
            final(self).objects_view() == old(self).objects_view(),
            final(self).durable() == old(self).durable(),
            final(self).stage_of() == (if outcome is Ok { MoveStage::Flipped } else { MoveStage::Stopped }),
    {
        self.stage = if outcome.is_ok() { MoveStage::Flipped } else { MoveStage::Stopped };
        outcome
    }

    /// The sources have been deleted, but for so many that are still held.
    pub fn deleted(&mut self, remaining_files: usize) -> (r: MovePhase)
        requires
            old(self).wf(),
            old(self).stage_of() is Flipped,
        ensures
            final(self).wf(),
            r == (MovePhase::SourceDeleteFinished { remaining_files }),
            final(self).stage_of() is Done,
            final(self).plan_of() == old(self).plan_of(),
            final(self).objects_view() == old(self).objects_view(),
            final(self).durable() == old(self).durable(),
    {
        self.stage = MoveStage::Done;
        MovePhase::SourceDeleteFinished { remaining_files }
    }

    /// No more objects are durable than there are.
    pub proof fn lemma_durable_are_objects(self)
        requires
            self.wf(),
        ensures
            0 <= self.durable() <= self.objects_view().len(),
    {
    }

    /// The catalog is flipped, and sources are deleted, only once every object
    /// is durable where it goes.
    pub proof fn lemma_flip_comes_after_durability(self)
        requires
            self.wf(),
            !(self.stage_of() is Copying || self.stage_of() is Stopped),
        ensures
            self.durable() == self.objects_view().len(),
    {
    }
}

/// Whether `to` are the tables of `m`, moved.
pub open spec fn all_moved(
    db: crate::db::DB,
    cf_name: Seq<char>,
    m: Seq<crate::manifest::SstMetaView>,
    tier: Seq<char>,
    to: Seq<crate::manifest::SstMetaView>,
) -> bool {
    to.len() == m.len() && forall|j: int| 0 <= j < m.len() ==> (#[trigger] to[j]) == crate::part_move::moved(db, cf_name, m[j], tier)
}

pub open spec fn numbers_differ(v: Seq<crate::manifest::SstMetaView>) -> bool {
    forall|i: int, j: int| 0 <= i < j < v.len() ==> (#[trigger] v[i]).id != (#[trigger] v[j]).id
}

proof fn lemma_movable_from(v: Seq<crate::manifest::SstMetaView>, tier: Seq<char>, tiers: Seq<crate::db::TierDef>, j: int) -> (i: int)
    requires
        0 <= j < crate::part_move::movable(v, tier, tiers).len(),
    ensures
        0 <= i < v.len(),
        v[i] == crate::part_move::movable(v, tier, tiers)[j],
        crate::part_move::to_be_moved(v[i], tier, tiers),
    decreases v.len(),
{
    let front = crate::part_move::movable(v.drop_last(), tier, tiers);
    if j < front.len() {
        lemma_movable_from(v.drop_last(), tier, tiers, j)
    } else {
        v.len() - 1
    }
}

proof fn lemma_movable_holds(v: Seq<crate::manifest::SstMetaView>, tier: Seq<char>, tiers: Seq<crate::db::TierDef>, i: int) -> (j: int)
    requires
        0 <= i < v.len(),
        crate::part_move::to_be_moved(v[i], tier, tiers),
    ensures
        0 <= j < crate::part_move::movable(v, tier, tiers).len(),
        crate::part_move::movable(v, tier, tiers)[j] == v[i],
    decreases v.len(),
{
    if i < v.len() - 1 {
        lemma_movable_holds(v.drop_last(), tier, tiers, i)
    } else {
        crate::part_move::movable(v.drop_last(), tier, tiers).len() as int
    }
}

proof fn lemma_part_from(v: Seq<crate::manifest::SstMetaView>, partition: Seq<char>, j: int) -> (i: int)
    requires
        0 <= j < crate::parts::partition_tables(v, partition).len(),
    ensures
        0 <= i < v.len(),
        v[i] == crate::parts::partition_tables(v, partition)[j],
        crate::parts::of_partition(v[i], partition),
    decreases v.len(),
{
    let front = crate::parts::partition_tables(v.drop_last(), partition);
    if j < front.len() {
        lemma_part_from(v.drop_last(), partition, j)
    } else {
        v.len() - 1
    }
}

proof fn lemma_part_holds(v: Seq<crate::manifest::SstMetaView>, partition: Seq<char>, i: int) -> (j: int)
    requires
        0 <= i < v.len(),
        crate::parts::of_partition(v[i], partition),
    ensures
        0 <= j < crate::parts::partition_tables(v, partition).len(),
        crate::parts::partition_tables(v, partition)[j] == v[i],
    decreases v.len(),
{
    if i < v.len() - 1 {
        lemma_part_holds(v.drop_last(), partition, i)
    } else {
        crate::parts::partition_tables(v.drop_last(), partition).len() as int
    }
}

/// A move that went through leaves nothing of the part to be moved: asking for
/// it again does nothing.
pub proof fn lemma_moving_again_does_nothing(
    db: crate::db::DB,
    cf_name: Seq<char>,
    v: Seq<crate::manifest::SstMetaView>,
    partition: Seq<char>,
    tier: Seq<char>,
    to: Seq<crate::manifest::SstMetaView>,
)
    requires
        all_moved(db, cf_name, crate::part_move::movable(crate::parts::partition_tables(v, partition), tier, db.tiers@), tier, to),
    ensures
        crate::part_move::movable(crate::parts::partition_tables(swapped(v, to), partition), tier, db.tiers@).len() == 0,
{
    let part = crate::parts::partition_tables(v, partition);
    let m = crate::part_move::movable(part, tier, db.tiers@);
    let w = swapped(v, to);
    let wp = crate::parts::partition_tables(w, partition);
    let wm = crate::part_move::movable(wp, tier, db.tiers@);
    if wm.len() > 0 {
        let a = lemma_movable_from(wp, tier, db.tiers@, 0);
        let b = lemma_part_from(w, partition, a);
        assert(w[b] == replaced(v[b], to));
        if exists|j: int| first_with(to, v[b].id, j) {
            let j = choose|j: int| first_with(to, v[b].id, j);
            assert(to[j] == crate::part_move::moved(db, cf_name, m[j], tier));
        } else {
            let c = lemma_part_holds(v, partition, b);
            let d = lemma_movable_holds(part, tier, db.tiers@, c);
            assert(to[d] == crate::part_move::moved(db, cf_name, m[d], tier));
            lemma_first(to, v[b].id, d);
        }
    }
}

proof fn lemma_first(v: Seq<crate::manifest::SstMetaView>, id: u64, d: int)
    requires
        0 <= d < v.len(),
        v[d].id == id,
    ensures
        exists|j: int| first_with(v, id, j),
    decreases d,
{
    if exists|k: int| 0 <= k < d && (#[trigger] v[k]).id == id {
        let k = choose|k: int| 0 <= k < d && (#[trigger] v[k]).id == id;
        lemma_first(v, id, k);
    } else {
        assert(first_with(v, id, d));
    }
}

/// A move changes where the tables of the part lie, and nothing else of any
/// table.
pub proof fn lemma_move_keeps_the_rest(
    db: crate::db::DB,
    cf_name: Seq<char>,
    v: Seq<crate::manifest::SstMetaView>,
    partition: Seq<char>,
    tier: Seq<char>,
    to: Seq<crate::manifest::SstMetaView>,
    i: int,
)
    requires
        numbers_differ(v),
        0 <= i < v.len(),
        all_moved(db, cf_name, crate::part_move::movable(crate::parts::partition_tables(v, partition), tier, db.tiers@), tier, to),
    ensures
        swapped(v, to).len() == v.len(),
        swapped(v, to)[i] == (if crate::parts::of_partition(v[i], partition) && crate::part_move::to_be_moved(v[i], tier, db.tiers@) {
            crate::part_move::moved(db, cf_name, v[i], tier)
        } else {
            v[i]
        }),
{
    let part = crate::parts::partition_tables(v, partition);
    let m = crate::part_move::movable(part, tier, db.tiers@);
    if exists|j: int| first_with(to, v[i].id, j) {
        let j = choose|j: int| first_with(to, v[i].id, j);
        assert(to[j] == crate::part_move::moved(db, cf_name, m[j], tier));
        let a = lemma_movable_from(part, tier, db.tiers@, j);
        let b = lemma_part_from(v, partition, a);
        assert(v[b].id == v[i].id);
        assert(b == i);
    } else if crate::parts::of_partition(v[i], partition) && crate::part_move::to_be_moved(v[i], tier, db.tiers@) {
        let c = lemma_part_holds(v, partition, i);
        let d = lemma_movable_holds(part, tier, db.tiers@, c);
        assert(to[d] == crate::part_move::moved(db, cf_name, m[d], tier));
        lemma_first(to, v[i].id, d);
    }
}

/// The objects of a move are the key log of each table, and the value log of
/// each that has one, each from where it lies to where it goes: none is left
/// behind and no other is copied.
pub proof fn lemma_move_copies_every_file(r: Relocation, vlogs: Seq<bool>, n: int, o: (Seq<char>, Seq<char>))
    requires
        0 <= n <= r.sources@.len(),
        n <= r.targets@.len(),
        n <= vlogs.len(),
    ensures
        objects_of(r, vlogs, n).contains(o) <==> exists|i: int|
            #![trigger r.sources@[i]]
            0 <= i < n && (o == (r.sources@[i]@, r.targets@[i]@) || (vlogs[i] && o == (
                crate::sst_format::vlog_path_text(r.sources@[i]@),
                crate::sst_format::vlog_path_text(r.targets@[i]@),
            ))),
        objects_of(r, vlogs, n).len() == n + vlogs.take(n).filter(|b: bool| b).len(),
    decreases n,
{
    reveal(Seq::filter);
    if n > 0 {
        lemma_move_copies_every_file(r, vlogs, n - 1, o);
        let front = objects_of(r, vlogs, n - 1);
        let s = r.sources@[n - 1]@;
        let t = r.targets@[n - 1]@;
        let k = front.push((s, t));
        let all = objects_of(r, vlogs, n);
        assert(vlogs.take(n).drop_last() =~= vlogs.take(n - 1));
        assert(k.contains(o) <==> front.contains(o) || o == (s, t)) by {
            if front.contains(o) {
                assert(k[front.index_of(o)] == o);
            }
            assert(k[front.len() as int] == (s, t));
        }
        let w = (crate::sst_format::vlog_path_text(s), crate::sst_format::vlog_path_text(t));
        assert(all.contains(o) <==> k.contains(o) || (vlogs[n - 1] && o == w)) by {
            if vlogs[n - 1] {
                if k.contains(o) {
                    assert(all[k.index_of(o)] == o);
                }
                assert(all[k.len() as int] == w);
            }
        }
        assert(r.sources@[n - 1]@ == s);
    }
}

/// The flip puts a moved table where the table with its number was, and leaves
/// every other table as it is.
pub proof fn lemma_flip_swaps_the_moved_tables(v: Seq<crate::manifest::SstMetaView>, to: Seq<crate::manifest::SstMetaView>, i: int)
    requires
        numbers_differ(to),
        0 <= i < v.len(),
    ensures
        swapped(v, to).len() == v.len(),
        forall|j: int| 0 <= j < to.len() && (#[trigger] to[j]).id == v[i].id ==> swapped(v, to)[i] == to[j],
        (forall|j: int| 0 <= j < to.len() ==> (#[trigger] to[j]).id != v[i].id) ==> swapped(v, to)[i] == v[i],
        swapped(v, to)[i].id == v[i].id,
{
    let t = v[i];
    assert forall|j: int| 0 <= j < to.len() && (#[trigger] to[j]).id == t.id implies swapped(v, to)[i] == to[j] by {
        lemma_first(to, t.id, j);
        assert(first_with(to, t.id, j)) by {
            assert forall|k: int| 0 <= k < j implies (#[trigger] to[k]).id != t.id by {
                assert(to[k].id != to[j].id);
            }
        }
        let c = choose|c: int| first_with(to, t.id, c);
        assert(first_with(to, t.id, c));
        if c < j {
            assert(to[c].id != to[j].id);
        }
        if j < c {
            assert(to[j].id != to[c].id);
        }
    }
    if exists|j: int| first_with(to, t.id, j) {
        let c = choose|c: int| first_with(to, t.id, c);
        assert(to[c].id == t.id);
    }
}

} // verus!
