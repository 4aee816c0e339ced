//! Moving parts between storage tiers, and the partitions of a column family.

use vstd::prelude::*;
use vstd::string::StringExecFns;

use crate::comparator::Comparator;
use crate::db::{ColumnFamily, PartitionRule, TierRule, DB};
use crate::encoding::{bytes_eq, copy_bytes};
use crate::error::OndaError;
use crate::manifest::SstMeta;
use crate::prefix_rule::longest_prefix;
use crate::range_lock::KeyRange;
use crate::storage::text_not_after;
use crate::text::{copy_opt_string, str_eq};

verus! {

// ---------------------------------------------------------------------------
// The phases of a move
// ---------------------------------------------------------------------------

/// A boundary in the move of a part.
#[derive(Debug, Clone, PartialEq, Eq)]
pub enum MovePhase {
    /// An object has received all its bytes, but is not durable yet: the
    /// `object_index`-th of `object_count`, counted from 1.
    CopyComplete { object_index: usize, object_count: usize },
    /// All objects are durable.
    DestinationSynced,
    /// The catalog durably names the destination.
    ManifestFlipped,
    /// The sources were deleted, but for so many that are still held.
    SourceDeleteFinished { remaining_files: usize },
}

impl MovePhase {
    pub open spec fn phase_number(self) -> int {
        match self {
            MovePhase::CopyComplete { .. } => 0,
            MovePhase::DestinationSynced => 1,
            MovePhase::ManifestFlipped => 2,
            MovePhase::SourceDeleteFinished { .. } => 3,
        }
    }

    /// Whether two phases are the same boundary, whatever their counters.
    pub fn same_kind(&self, other: &MovePhase) -> (r: bool)
        ensures
            r == (self.phase_number() == other.phase_number()),
    {
        match (self, other) {
            (MovePhase::CopyComplete { .. }, MovePhase::CopyComplete { .. }) => true,
            (MovePhase::DestinationSynced, MovePhase::DestinationSynced) => true,
            (MovePhase::ManifestFlipped, MovePhase::ManifestFlipped) => true,
            (MovePhase::SourceDeleteFinished { .. }, MovePhase::SourceDeleteFinished { .. }) => true,
            _ => false,
        }
    }

    /// Whether a move can still fail at this boundary: the catalog does not
    /// name the destination yet.
    pub open spec fn can_fail(self) -> bool {
        self is CopyComplete || self is DestinationSynced
    }
}

/// A boundary, and the move that came to it.
#[derive(Debug, Clone)]
pub struct MovePhaseEvent<'a> {
    pub cf_name: &'a str,
    pub partition: &'a str,
    pub destination_tier: &'a str,
    pub phase: MovePhase,
}

/// Someone who is told of the boundaries of a move.
pub trait MovePhaseObserver {
    fn observe(&self, event: &MovePhaseEvent<'_>) -> Result<(), OndaError>;
}

/// Tell an observer, where there is one, of a boundary. What they answer counts
/// until the catalog names the destination; from then on it is ignored.
pub fn observe_move<O: MovePhaseObserver>(observer: Option<&O>, event: &MovePhaseEvent<'_>) -> (r: Result<(), OndaError>)
    ensures
        observer is None ==> r is Ok,
        observer is Some ==> exists|answer: Result<(), OndaError>| #[trigger]
            call_ensures(O::observe, (observer->0, event), answer) && r == (if event.phase.can_fail() { answer } else { Ok(()) }),
{
    match observer {
        None => Ok(()),
        Some(o) => {
            let answer = o.observe(event);
            match event.phase {
                MovePhase::CopyComplete { .. } => answer,
                MovePhase::DestinationSynced => answer,
                _ => Ok(()),
            }
        },
    }
}

// ---------------------------------------------------------------------------
// Where tables lie
// ---------------------------------------------------------------------------

/// The name of a table of this database on a shared tier.
pub open spec fn object_text(cf_name: Seq<char>, nonce: u64, id: u64) -> Seq<char> {
    crate::format::cf_dir_text(cf_name) + "/"@ + crate::text::hex_text(nonce as nat, 16) + "-"@ + crate::text::decimal_text(id as nat)
}

/// The name of a table of this database on a shared tier.
pub fn object_name(cf_name: &str, nonce: u64, id: u64) -> (r: String)
    ensures
        r@ == object_text(cf_name@, nonce, id),
{
    let mut s = crate::format::cf_dir_name(cf_name);
    s.append("/");
    s.append(crate::text::hex(nonce, 16).as_str());
    s.append("-");
    s.append(crate::text::decimal(id).as_str());
    s
}

/// Databases that share a tier do not overwrite each other's objects: two
/// objects have one name only where database, column family and table are the
/// same.
pub proof fn lemma_objects_do_not_collide(cf: Seq<char>, nonce: u64, id: u64, cf2: Seq<char>, nonce2: u64, id2: u64)
    requires
        object_text(cf, nonce, id) == object_text(cf2, nonce2, id2),
    ensures
        cf == cf2,
        nonce == nonce2,
        id == id2,
{
    reveal_strlit("/");
    reveal_strlit("-");
    reveal_strlit("cf-");
    let s = object_text(cf, nonce, id);
    let h = crate::text::hex_text(nonce as nat, 16);
    let h2 = crate::text::hex_text(nonce2 as nat, 16);
    let d = crate::text::decimal_text(id as nat);
    let d2 = crate::text::decimal_text(id2 as nat);
    let front = crate::format::cf_dir_text(cf) + "/"@ + h;
    let front2 = crate::format::cf_dir_text(cf2) + "/"@ + h2;
    crate::text::lemma_hex_is_faithful(nonce as nat, nonce2 as nat, 16);
    crate::text::lemma_decimal_is_faithful(id as nat, id2 as nat);
    crate::text::lemma_decimal_is_faithful(id2 as nat, id as nat);
    reveal_with_fuel(crate::text::pow16, 17);
    assert(s =~= front + "-"@ + d);
    assert(s =~= front2 + "-"@ + d2);
    let n = s.len();
    assert(s[n - d.len() - 1] == '-' && s[n - d2.len() - 1] == '-');
    if d.len() < d2.len() {
        assert(s[n - d.len() - 1] == d2[d2.len() - d.len() - 1]);
    } else if d2.len() < d.len() {
        assert(s[n - d2.len() - 1] == d[d.len() - d2.len() - 1]);
    }
    assert(d =~= s.subrange(n - d.len(), n as int));
    assert(d2 =~= s.subrange(n - d.len(), n as int));
    let m = n - d.len() - 1;
    assert(front =~= s.take(m));
    assert(front2 =~= s.take(m));
    assert(h =~= front.subrange(m - 16, m));
    assert(h2 =~= front.subrange(m - 16, m));
    assert(cf =~= front.subrange(3, m - 17));
    assert(cf2 =~= front.subrange(3, m - 17));
}

/// Whether `p` is the path of the key log of a table.
pub open spec fn is_klog_path(db: DB, cf_name: Seq<char>, t: crate::manifest::SstMetaView, p: Seq<char>) -> bool {
    exists|root: Seq<char>| #[trigger]
        db.roots.root_text(t.tier, root) && p == (match t.object {
            Some(o) => root + "/"@ + o + ".klog"@,
            None => crate::storage::child_path(root, crate::format::cf_dir_text(cf_name)) + "/"@ + crate::text::decimal_text(t.id as nat) + ".klog"@,
        })
}

impl DB {
    /// The path of the key log of a table: under the root of its tier, by the
    /// name of its object or else by its number.
    pub fn klog_path_for(&self, cf_name: &str, t: &SstMeta) -> (r: String)
        ensures
            is_klog_path(*self, cf_name@, t@, r@),
    {
        let tier: Option<&str> = match &t.tier {
            None => None,
            Some(s) => Some(s.as_str()),
        };
        let root = self.roots.root_for(tier);
        assert(self.roots.root_text(t@.tier, root@));
        match &t.object {
            Some(o) => {
                let mut s = crate::text::join3(root, "/", o.as_str());
                s.append(".klog");
                s
            },
            None => {
                let d = crate::format::cf_dir_name(cf_name);
                let mut s = crate::text::join3(root, "/", d.as_str());
                s.append("/");
                s.append(crate::text::decimal(t.id).as_str());
                s.append(".klog");
                s
            },
        }
    }
}

// ---------------------------------------------------------------------------
// Relocation
// ---------------------------------------------------------------------------

/// The move of a part: the tables as they are and as they will be, and from
/// where to where the key log of each goes.
#[derive(Debug)]
pub struct Relocation {
    pub from: Vec<SstMeta>,
    pub to: Vec<SstMeta>,
    pub sources: Vec<String>,
    pub targets: Vec<String>,
}

/// Whether a table is to be moved to a tier: it is not there yet, and not on a
/// shared tier, where nothing may be deleted.
pub open spec fn to_be_moved(t: crate::manifest::SstMetaView, tier: Seq<char>, tiers: Seq<crate::db::TierDef>) -> bool {
    t.tier != Some(tier) && !crate::parts::on_shared(t, tiers)
}

/// The tables of a part that are to be moved, in their order.
pub open spec fn movable(v: Seq<crate::manifest::SstMetaView>, tier: Seq<char>, tiers: Seq<crate::db::TierDef>) -> Seq<crate::manifest::SstMetaView>
    decreases v.len(),
{
    if v.len() == 0 {
        Seq::empty()
    } else {
        let front = movable(v.drop_last(), tier, tiers);
        if to_be_moved(v.last(), tier, tiers) { front.push(v.last()) } else { front }
    }
}

/// A table once it lies on a tier.
pub open spec fn moved(db: DB, cf_name: Seq<char>, t: crate::manifest::SstMetaView, tier: Seq<char>) -> crate::manifest::SstMetaView {
    crate::manifest::SstMetaView {
        tier: Some(tier),
        object: if crate::db::is_shared_tier(db.tiers@, tier) { Some(object_text(cf_name, db.instance_nonce->0, t.id)) } else { None },
        ..t
    }
}

/// Whether a relocation is that of these tables to a tier.
pub open spec fn relocates(r: Relocation, db: DB, cf_name: Seq<char>, v: Seq<crate::manifest::SstMetaView>, tier: Seq<char>) -> bool {
    &&& crate::manifest::sst_views(r.from@) == v
    &&& r.to@.len() == v.len() && r.sources@.len() == v.len() && r.targets@.len() == v.len()
    &&& forall|i: int| 0 <= i < v.len() ==> (#[trigger] r.to@[i])@ == moved(db, cf_name, v[i], tier)
    &&& forall|i: int| 0 <= i < v.len() ==> is_klog_path(db, cf_name, v[i], (#[trigger] r.sources@[i])@)
    &&& forall|i: int| 0 <= i < v.len() ==> is_klog_path(db, cf_name, moved(db, cf_name, v[i], tier), (#[trigger] r.targets@[i])@)
}

impl DB {
    /// How a part is moved to a tier: those of its tables that are not there.
    /// An unknown tier is refused, and a part without tables is not found.
    pub fn relocate_part<C: Comparator>(&self, cf: &ColumnFamily<C>, partition: &str, tier: &str) -> (r: Result<Relocation, OndaError>)
        requires
            crate::db::is_shared_tier(self.tiers@, tier@) ==> self.instance_nonce is Some,
        ensures
            ({
                let part = crate::parts::partition_tables(cf.tables(), partition@);
                let known = !crate::storage::names_none(self.roots.tiers@, tier@);
                &&& self.read_only ==> r is Err && r->Err_0 is ReadOnly
                &&& !self.read_only && self.poisoned ==> r is Err && r->Err_0 is Poisoned
                &&& !self.read_only && !self.poisoned && !known ==> r is Err && r->Err_0 is InvalidArgs
                &&& !self.read_only && !self.poisoned && known && part.len() == 0 ==> r is Err && r->Err_0 is NotFound
                &&& !self.read_only && !self.poisoned && known && part.len() > 0 ==> (r matches Ok(m) && relocates(
                    m,
                    *self,
                    cf.name@,
                    movable(part, tier@, self.tiers@),
                    tier@,
                ))
            }),
    {
        self.check_writable()?;
        if !self.roots.is_known(Some(tier)) {
            return Err(OndaError::InvalidArgs(crate::text::join3("unknown tier ", tier, "")));
        }
        let part = cf.partition_tables(partition);
        if part.len() == 0 {
            return Err(OndaError::NotFound);
        }
        let shared = self.tier_is_shared(tier);
        let ghost pv = crate::manifest::sst_views(part@);
        let mut m = Relocation { from: Vec::new(), to: Vec::new(), sources: Vec::new(), targets: Vec::new() };
        let mut i: usize = 0;
        assert(pv.take(0) =~= Seq::empty());
        assert(crate::manifest::sst_views(m.from@) =~= Seq::empty());
        while i < part.len()
            invariant
                i <= part@.len(),
                pv == crate::manifest::sst_views(part@),
                shared == crate::db::is_shared_tier(self.tiers@, tier@),
                shared ==> self.instance_nonce is Some,
                relocates(m, *self, cf.name@, movable(pv.take(i as int), tier@, self.tiers@), tier@),
            decreases part@.len() - i,
        {
            let ghost t = pv.take(i + 1);
            assert(t.drop_last() =~= pv.take(i as int));
            assert(t.last() == part@[i as int]@);
            let here = match &part[i].tier {
                None => false,
                Some(s) => str_eq(s.as_str(), tier),
            };
            let stays = match &part[i].tier {
                None => false,
                Some(s) => self.tier_is_shared(s.as_str()),
            };
            if !here && !stays {
                let ghost m0 = m;
                let from = part[i].duplicate();
                let mut to = part[i].duplicate();
                to.tier = Some(String::from_str(tier));
                to.object = match self.instance_nonce {
                    Some(n) => if shared {
                        Some(object_name(cf.name.as_str(), n, part[i].id))
                    } else {
                        None
                    },
                    None => None,
                };
                let source = self.klog_path_for(cf.name.as_str(), &from);
                let target = self.klog_path_for(cf.name.as_str(), &to);
                assert(to@ == moved(*self, cf.name@, from@, tier@));
                m.from.push(from);
                m.to.push(to);
                m.sources.push(source);
                m.targets.push(target);
                proof {
                    let v0 = movable(pv.take(i as int), tier@, self.tiers@);
                    let v1 = movable(t, tier@, self.tiers@);
                    assert(v1 =~= v0.push(from@));
                    assert(crate::manifest::sst_views(m.from@) =~= crate::manifest::sst_views(m0.from@).push(from@));
                    assert forall|k: int| 0 <= k < v1.len() implies (#[trigger] m.to@[k])@ == moved(*self, cf.name@, v1[k], tier@) by {
                        if k < v0.len() {
                            assert(m.to@[k] == m0.to@[k]);
                        }
                    }
                    assert forall|k: int| 0 <= k < v1.len() implies is_klog_path(*self, cf.name@, v1[k], (#[trigger] m.sources@[k])@) by {
                        if k < v0.len() {
                            assert(m.sources@[k] == m0.sources@[k]);
                        }
                    }
                    assert forall|k: int| 0 <= k < v1.len() implies is_klog_path(
                        *self,
                        cf.name@,
                        moved(*self, cf.name@, v1[k], tier@),
                        (#[trigger] m.targets@[k])@,
                    ) by {
                        if k < v0.len() {
                            assert(m.targets@[k] == m0.targets@[k]);
                        }
                    }
                }
            }
            i += 1;
        }
        assert(pv.take(pv.len() as int) =~= pv);
        Ok(m)
    }

    /// How a part is moved to a tier.
    pub fn move_part_to_tier<C: Comparator>(&self, cf: &ColumnFamily<C>, partition: &str, tier: &str) -> (r: Result<Relocation, OndaError>)
        requires
            crate::db::is_shared_tier(self.tiers@, tier@) ==> self.instance_nonce is Some,
        ensures
            r matches Ok(m) ==> relocates(
                m,
                *self,
                cf.name@,
                movable(crate::parts::partition_tables(cf.tables(), partition@), tier@, self.tiers@),
                tier@,
            ),
            r is Ok <==> !self.read_only && !self.poisoned && !crate::storage::names_none(self.roots.tiers@, tier@)
                && crate::parts::partition_tables(cf.tables(), partition@).len() > 0,
            r is Err && r->Err_0 is NotFound <==> !self.read_only && !self.poisoned && !crate::storage::names_none(self.roots.tiers@, tier@)
                && crate::parts::partition_tables(cf.tables(), partition@).len() == 0,
            r is Err && r->Err_0 is ReadOnly <==> self.read_only,
            r is Err && r->Err_0 is Poisoned <==> !self.read_only && self.poisoned,
            r is Err && r->Err_0 is InvalidArgs <==> !self.read_only && !self.poisoned && crate::storage::names_none(self.roots.tiers@, tier@),
    {
        self.relocate_part(cf, partition, tier)
    }
}

/// A move that has been made leaves nothing to be moved: doing it again does
/// nothing. So does a table on a shared tier.
pub proof fn lemma_move_is_idempotent(db: DB, cf_name: Seq<char>, t: crate::manifest::SstMetaView, tier: Seq<char>)
    ensures
        !to_be_moved(moved(db, cf_name, t, tier), tier, db.tiers@),
        crate::parts::on_shared(t, db.tiers@) ==> !to_be_moved(t, tier, db.tiers@),
{
}

/// Shared tiers are free of deletions: no table that a move takes from its
/// place lies on one.
pub proof fn lemma_moves_spare_shared_tiers(v: Seq<crate::manifest::SstMetaView>, tier: Seq<char>, tiers: Seq<crate::db::TierDef>, i: int)
    requires
        0 <= i < movable(v, tier, tiers).len(),
    ensures
        !crate::parts::on_shared(movable(v, tier, tiers)[i], tiers),
        movable(v, tier, tiers)[i].tier != Some(tier),
    decreases v.len(),
{
    if i < movable(v.drop_last(), tier, tiers).len() {
        lemma_moves_spare_shared_tiers(v.drop_last(), tier, tiers, i);
    }
}

// ---------------------------------------------------------------------------
// The mover
// ---------------------------------------------------------------------------

/// A part at the bottom level, as the mover sees it.
#[derive(Debug)]
pub struct BottomPart {
    pub partition: String,
    pub min_key: Vec<u8>,
    pub tier: Option<String>,
    /// When its newest entry was written, where that is known.
    pub max_entry_time: Option<i64>,
}

/// `a - b`, held within the range of its type.
pub open spec fn held_difference(a: i64, b: i64) -> int {
    let d = a - b;
    if d > i64::MAX {
        i64::MAX as int
    } else if d < i64::MIN {
        i64::MIN as int
    } else {
        d
    }
}

/// Whether rule `i` sends a part to its tier at the time `now`: the tier is
/// named, another than the one the part lies on, and the part is old enough.
pub open spec fn sends(rules: Seq<TierRule>, part: BottomPart, now: i64, i: int) -> bool {
    &&& crate::prefix_rule::decides(rules, part.min_key@, i)
    &&& rules[i].tier@ != "ssd"@
    &&& crate::text::opt_text(part.tier) != Some(rules[i].tier@)
    &&& part.max_entry_time matches Some(t) && held_difference(now, t) > rules[i].min_age
}

/// The rule that sends a part to another tier, where one does. The default tier
/// goes by the name `ssd`, and nothing is moved there.
pub fn eligible_rule(rules: &Vec<TierRule>, part: &BottomPart, now: i64) -> (r: Option<usize>)
    ensures
        match r {
            Some(i) => sends(rules@, *part, now, i as int),
            None => crate::prefix_rule::undecided(rules@, part.min_key@) || exists|i: int| #[trigger]
                crate::prefix_rule::decides(rules@, part.min_key@, i) && !sends(rules@, *part, now, i),
        },
{
    let i = match longest_prefix(rules, part.min_key.as_slice()) {
        None => {
            return None;
        },
        Some(i) => i,
    };
    let rule = &rules[i];
    if str_eq(rule.tier.as_str(), "ssd") {
        return None;
    }
    let here = match &part.tier {
        None => false,
        Some(t) => str_eq(t.as_str(), rule.tier.as_str()),
    };
    if here {
        return None;
    }
    match part.max_entry_time {
        None => None,
        Some(t) => {
            let d = now as i128 - t as i128;
            let held: i128 = if d > i64::MAX as i128 {
                i64::MAX as i128
            } else if d < i64::MIN as i128 {
                i64::MIN as i128
            } else {
                d
            };
            if held > 0 && held as u128 > rule.min_age {
                Some(i)
            } else {
                None
            }
        },
    }
}

/// The tier that a part is to be moved to, where it is.
pub fn eligible_part_target<'a>(rules: &'a Vec<TierRule>, part: &BottomPart, now: i64) -> (r: Option<&'a str>)
    ensures
        match r {
            Some(t) => exists|i: int| #[trigger] sends(rules@, *part, now, i) && t@ == rules@[i].tier@,
            None => crate::prefix_rule::undecided(rules@, part.min_key@) || exists|i: int| #[trigger]
                crate::prefix_rule::decides(rules@, part.min_key@, i) && !sends(rules@, *part, now, i),
        },
{
    match eligible_rule(rules, part, now) {
        None => None,
        Some(i) => {
            assert(sends(rules@, *part, now, i as int));
            Some(rules[i].tier.as_str())
        },
    }
}

/// Whether a part lies on a shared tier, where other databases may refer to it:
/// it is never moved.
pub open spec fn is_published(tiers: Seq<crate::db::TierDef>, part: BottomPart) -> bool {
    part.tier matches Some(t) && crate::db::is_shared_tier(tiers, t@)
}

/// Whether `m` gives, for some of the parts in their order, the rule that sends
/// them on, and leaves out no part that a rule sends on for certain. Parts on a
/// shared tier stay.
pub open spec fn is_mover_pass(
    rules: Seq<TierRule>,
    tiers: Seq<crate::db::TierDef>,
    parts: Seq<BottomPart>,
    now: i64,
    m: Seq<(usize, usize)>,
) -> bool {
    &&& forall|k: int| 0 <= k < m.len() ==> (#[trigger] m[k]).0 < parts.len() && sends(rules, parts[m[k].0 as int], now, m[k].1 as int)
        && !is_published(tiers, parts[m[k].0 as int])
    &&& forall|j: int, k: int| 0 <= j < k < m.len() ==> (#[trigger] m[j]).0 < (#[trigger] m[k]).0
    &&& forall|p: int|
        0 <= p < parts.len() && !is_published(tiers, parts[p]) && (forall|i: int| #[trigger]
            crate::prefix_rule::decides(rules, parts[p].min_key@, i) ==> sends(rules, parts[p], now, i)) && !crate::prefix_rule::undecided(rules, parts[p].min_key@) ==> exists|k: int| 0 <= k < m.len() && (#[trigger] m[k]).0 == p
}

impl DB {
    /// The moves of one pass over the parts of a column family: which part, and
    /// by which rule. A database that is read-only moves nothing, and a part on
    /// a shared tier is not moved.
    pub fn run_part_mover(&self, rules: &Vec<TierRule>, parts: &Vec<BottomPart>, now: i64) -> (r: Result<Vec<(usize, usize)>, OndaError>)
        ensures
            self.read_only ==> (r matches Ok(m) && m@.len() == 0),
            !self.read_only && self.poisoned ==> r is Err && r->Err_0 is Poisoned,
            !self.read_only && !self.poisoned ==> (r matches Ok(m) && is_mover_pass(rules@, self.tiers@, parts@, now, m@)),
    {
        let mut m: Vec<(usize, usize)> = Vec::new();
        if self.read_only {
            return Ok(m);
        }
        self.check_usable()?;
        let mut p: usize = 0;
        while p < parts.len()
            invariant
                p <= parts@.len(),
                forall|k: int|
                    0 <= k < m@.len() ==> (#[trigger] m@[k]).0 < p && sends(rules@, parts@[m@[k].0 as int], now, m@[k].1 as int) && !is_published(
                        self.tiers@,
                        parts@[m@[k].0 as int],
                    ),
                forall|j: int, k: int| 0 <= j < k < m@.len() ==> (#[trigger] m@[j]).0 < (#[trigger] m@[k]).0,
                forall|q: int|
                    0 <= q < p && !is_published(self.tiers@, parts@[q]) && (forall|i: int| #[trigger]
                        crate::prefix_rule::decides(rules@, parts@[q].min_key@, i) ==> sends(rules@, parts@[q], now, i))
                        && !crate::prefix_rule::undecided(rules@, parts@[q].min_key@) ==> exists|k: int| 0 <= k < m@.len() && (#[trigger] m@[k]).0 == q,
            decreases parts@.len() - p,
        {
            let ghost m0 = m@;
            let published = match &parts[p].tier {
                None => false,
                Some(t) => self.tier_is_shared(t.as_str()),
            };
            assert(published == is_published(self.tiers@, parts@[p as int]));
            if !published {
                match eligible_rule(rules, &parts[p], now) {
                    None => {},
                    Some(i) => {
                        m.push((p, i));
                    },
                }
            }
            proof {
                assert forall|q: int|
                    0 <= q < p + 1 && !is_published(self.tiers@, parts@[q]) && (forall|i: int| #[trigger]
                        crate::prefix_rule::decides(rules@, parts@[q].min_key@, i) ==> sends(rules@, parts@[q], now, i))
                        && !crate::prefix_rule::undecided(rules@, parts@[q].min_key@) implies exists|k: int|
                    0 <= k < m@.len() && (#[trigger] m@[k]).0 == q by {
                    if q < p {
                        let k = choose|k: int| 0 <= k < m0.len() && (#[trigger] m0[k]).0 == q;
                        assert(m@[k] == m0[k]);
                    } else {
                        assert(m@.len() > m0.len());
                        assert(m@[m0.len() as int].0 == p);
                    }
                }
            }
            p += 1;
        }
        Ok(m)
    }
}

// ---------------------------------------------------------------------------
// Partitions
// ---------------------------------------------------------------------------

/// A partition that has been cut.
#[derive(Debug, Clone, PartialEq, Eq)]
pub struct PartitionInfo {
    pub partition: String,
    /// The smallest key in it now.
    pub min_key: Vec<u8>,
    /// The tier it lies on; none for the default.
    pub tier: Option<String>,
}

#[verifier::ext_equal]
pub struct PartitionView {
    pub partition: Seq<char>,
    pub min_key: Seq<u8>,
    pub tier: Option<Seq<char>>,
}

pub open spec fn info_views(v: Seq<PartitionInfo>) -> Seq<PartitionView> {
    v.map_values(
        |p: PartitionInfo| PartitionView { partition: p.partition@, min_key: p.min_key@, tier: crate::text::opt_text(p.tier) },
    )
}

pub open spec fn part_views(v: Seq<BottomPart>) -> Seq<PartitionView> {
    v.map_values(|p: BottomPart| PartitionView { partition: p.partition@, min_key: p.min_key@, tier: crate::text::opt_text(p.tier) })
}

pub open spec fn by_name(v: Seq<PartitionView>) -> bool {
    forall|i: int, j: int| 0 <= i < j < v.len() ==> crate::storage::text_le((#[trigger] v[i]).partition, (#[trigger] v[j]).partition)
}

impl DB {
    /// The partitions that have been cut, by name.
    pub fn list_partitions(&self, parts: &Vec<BottomPart>) -> (r: Vec<PartitionInfo>)
        ensures
            by_name(info_views(r@)),
            info_views(r@).to_multiset() == part_views(parts@).to_multiset(),
    {
        let ghost all = part_views(parts@);
        let mut out: Vec<PartitionInfo> = Vec::new();
        let mut n: usize = 0;
        proof {
            assert(info_views(out@) =~= all.take(0));
        }
        while n < parts.len()
            invariant
                n <= parts@.len(),
                all == part_views(parts@),
                by_name(info_views(out@)),
                info_views(out@).to_multiset() == all.take(n as int).to_multiset(),
            decreases parts@.len() - n,
        {
            let ghost o0 = info_views(out@);
            let p = &parts[n];
            let x = PartitionInfo {
                partition: p.partition.clone(),
                min_key: copy_bytes(p.min_key.as_slice()),
                tier: copy_opt_string(&p.tier),
            };
            let ghost xv = PartitionView { partition: x.partition@, min_key: x.min_key@, tier: crate::text::opt_text(x.tier) };
            assert(all[n as int] == xv);
            let mut i: usize = out.len();
            while i > 0 && !text_not_after(out[i - 1].partition.as_str(), x.partition.as_str())
                invariant
                    i <= out@.len(),
                    info_views(out@) == o0,
                    xv.partition == x.partition@,
                    forall|k: int| i <= k < o0.len() ==> !crate::storage::text_le((#[trigger] o0[k]).partition, xv.partition),
                decreases i,
            {
                i -= 1;
                assert(o0[i as int].partition == out@[i as int].partition@);
            }
            proof {
                assert forall|k: int| 0 <= k < i implies crate::storage::text_le((#[trigger] o0[k]).partition, xv.partition) by {
                    assert(o0[i - 1].partition == out@[i - 1].partition@);
                    if k < i - 1 {
                        crate::comparator::lemma_bytes_transitive(
                            vstd::utf8::encode_utf8(o0[k].partition),
                            vstd::utf8::encode_utf8(o0[i - 1].partition),
                            vstd::utf8::encode_utf8(xv.partition),
                        );
                    }
                }
                assert forall|k: int| i <= k < o0.len() implies crate::storage::text_le(xv.partition, (#[trigger] o0[k]).partition) by {
                    crate::comparator::lemma_bytes_total(vstd::utf8::encode_utf8(o0[k].partition), vstd::utf8::encode_utf8(xv.partition));
                }
            }
            out.insert(i, x);
            proof {
                assert(info_views(out@) =~= o0.insert(i as int, xv));
                vstd::seq_lib::to_multiset_insert(o0, i as int, xv);
                assert(all.take(n + 1) =~= all.take(n as int).push(xv));
                vstd::seq_lib::to_multiset_build(all.take(n as int), xv);
            }
            n += 1;
        }
        assert(all.take(all.len() as int) =~= all);
        out
    }

    /// Add a rule for a partition; another for the same prefix is refused.
    pub fn add_partition_rule<C: Comparator>(&self, cf: &mut ColumnFamily<C>, rule: PartitionRule) -> (r: Result<(), OndaError>)
        ensures
            self.read_only ==> r is Err && r->Err_0 is ReadOnly,
            !self.read_only && self.poisoned ==> r is Err && r->Err_0 is Poisoned,
            !self.read_only && !self.poisoned && has_rule(old(cf).partition_rules@, rule.prefix@) ==> r is Err && r->Err_0 is InvalidArgs,
            !self.read_only && !self.poisoned && !has_rule(old(cf).partition_rules@, rule.prefix@) ==> r is Ok && final(cf).partition_rules@
                == old(cf).partition_rules@.push(rule),
            r is Err ==> *final(cf) == *old(cf),
            *final(cf) == (ColumnFamily { partition_rules: final(cf).partition_rules, ..*old(cf) }),
    {
        self.check_writable()?;
        match find_rule(&cf.partition_rules, rule.prefix.as_slice()) {
            Some(_) => Err(OndaError::InvalidArgs(crate::text::join3("duplicate partition rule", " prefix", ""))),
            None => {
                cf.partition_rules.push(rule);
                Ok(())
            },
        }
    }

    /// Remove the rule for exactly this prefix; none is not found.
    pub fn remove_partition_rule<C: Comparator>(&self, cf: &mut ColumnFamily<C>, prefix: &[u8]) -> (r: Result<(), OndaError>)
        ensures
            self.read_only ==> r is Err && r->Err_0 is ReadOnly,
            !self.read_only && self.poisoned ==> r is Err && r->Err_0 is Poisoned,
            !self.read_only && !self.poisoned && !has_rule(old(cf).partition_rules@, prefix@) ==> r is Err && r->Err_0 is NotFound,
            !self.read_only && !self.poisoned && has_rule(old(cf).partition_rules@, prefix@) ==> r is Ok && exists|i: int| #[trigger]
                rule_at(old(cf).partition_rules@, prefix@, i) && final(cf).partition_rules@ == old(cf).partition_rules@.remove(i),
            r is Err ==> *final(cf) == *old(cf),
            *final(cf) == (ColumnFamily { partition_rules: final(cf).partition_rules, ..*old(cf) }),
    {
        self.check_writable()?;
        match find_rule(&cf.partition_rules, prefix) {
            None => Err(OndaError::NotFound),
            Some(i) => {
                cf.partition_rules.remove(i);
                assert(rule_at(old(cf).partition_rules@, prefix@, i as int));
                Ok(())
            },
        }
    }
}

pub open spec fn rule_at(rules: Seq<PartitionRule>, prefix: Seq<u8>, i: int) -> bool {
    0 <= i < rules.len() && rules[i].prefix@ == prefix
}

pub open spec fn has_rule(rules: Seq<PartitionRule>, prefix: Seq<u8>) -> bool {
    exists|i: int| rule_at(rules, prefix, i)
}

fn find_rule(rules: &Vec<PartitionRule>, prefix: &[u8]) -> (r: Option<usize>)
    ensures
        match r {
            Some(i) => rule_at(rules@, prefix@, i as int),
            None => !has_rule(rules@, prefix@),
        },
{
    let mut i: usize = 0;
    while i < rules.len()
        invariant
            i <= rules@.len(),
            forall|k: int| 0 <= k < i ==> !#[trigger] rule_at(rules@, prefix@, k),
        decreases rules@.len() - i,
    {
        if bytes_eq(rules[i].prefix.as_slice(), prefix) {
            return Some(i);
        }
        i += 1;
    }
    None
}

/// Removing a rule that was just added leaves the rules as they were.
pub proof fn lemma_remove_undoes_add(rules: Seq<PartitionRule>, rule: PartitionRule, i: int)
    requires
        !has_rule(rules, rule.prefix@),
        rule_at(rules.push(rule), rule.prefix@, i),
    ensures
        rules.push(rule).remove(i) == rules,
{
    if i < rules.len() {
        assert(rule_at(rules, rule.prefix@, i));
    }
    assert(rules.push(rule).remove(i) =~= rules);
}

impl<C: Comparator> ColumnFamily<C> {
    /// The partition of a key by the rules of the column family.
    pub fn partition_of(&self, key: &[u8]) -> (r: Option<&str>)
        ensures
            match r {
                Some(n) => exists|i: int| #[trigger]
                    crate::prefix_rule::decides(self.partition_rules@, key@, i) && n@ == self.partition_rules@[i].name@,
                None => crate::prefix_rule::undecided(self.partition_rules@, key@),
            },
    {
        match longest_prefix(&self.partition_rules, key) {
            None => None,
            Some(i) => Some(self.partition_rules[i].name.as_str()),
        }
    }
}

// ---------------------------------------------------------------------------
// The span of a partition
// ---------------------------------------------------------------------------

/// Whether a range covers every table: no smallest key comes before it, and no
/// largest key behind it.
pub open spec fn range_spans<C: Comparator>(ord: C, v: Seq<crate::manifest::SstMetaView>, r: crate::range_lock::KeyRangeView) -> bool {
    forall|i: int|
        0 <= i < v.len() ==> (r.min matches Some(m) ==> ord.le(m, (#[trigger] v[i]).min_key)) && (r.max matches Some(m) ==> ord.le(v[i].max_key, m))
}

/// Whether a range that was locked still covers the tables of a partition.
pub fn still_spans<C: Comparator>(ord: &C, tables: &Vec<SstMeta>, range: &KeyRange) -> (r: bool)
    ensures
        r == range_spans(*ord, crate::manifest::sst_views(tables@), range@),
{
    let ghost v = crate::manifest::sst_views(tables@);
    let mut i: usize = 0;
    while i < tables.len()
        invariant
            i <= tables@.len(),
            v == crate::manifest::sst_views(tables@),
            forall|k: int|
                0 <= k < i ==> (range@.min matches Some(m) ==> ord.le(m, (#[trigger] v[k]).min_key)) && (range@.max matches Some(m) ==> ord.le(
                    v[k].max_key,
                    m,
                )),
        decreases tables@.len() - i,
    {
        let t = &tables[i];
        assert(v[i as int] == tables@[i as int]@);
        proof {
            crate::comparator::lemma_order(*ord);
        }
        let lo = match &range.min {
            None => true,
            Some(m) => ord.compare(t.min_key.as_slice(), m.as_slice()).is_ge(),
        };
        let hi = match &range.max {
            None => true,
            Some(m) => ord.compare(t.max_key.as_slice(), m.as_slice()).is_le(),
        };
        if !lo || !hi {
            return false;
        }
        i += 1;
    }
    true
}

/// The range to be locked for the tables of a partition: from the least
/// smallest key to the greatest largest key, or every key where there is no
/// table.
pub fn span_to_lock<C: Comparator>(ord: &C, tables: &Vec<SstMeta>) -> (r: KeyRange)
    ensures
        range_spans(*ord, crate::manifest::sst_views(tables@), r@),
        tables@.len() == 0 ==> r@ == (crate::range_lock::KeyRangeView { min: None, max: None }),
        tables@.len() > 0 ==> is_least_span(*ord, crate::manifest::sst_views(tables@), r@),
{
    let ghost v = crate::manifest::sst_views(tables@);
    let mut spans: Vec<(&[u8], &[u8])> = Vec::new();
    let mut i: usize = 0;
    while i < tables.len()
        invariant
            i <= tables@.len(),
            v == crate::manifest::sst_views(tables@),
            spans@.len() == i,
            forall|k: int| 0 <= k < i ==> (#[trigger] spans@[k]).0@ == v[k].min_key && spans@[k].1@ == v[k].max_key,
        decreases tables@.len() - i,
    {
        assert(v[i as int] == tables@[i as int]@);
        spans.push((tables[i].min_key.as_slice(), tables[i].max_key.as_slice()));
        i += 1;
    }
    match KeyRange::union(&spans, ord) {
        None => KeyRange { min: None, max: None },
        Some(r) => {
            proof {
                let (a, b) = choose|a: int, b: int| #[trigger]
                    crate::range_lock::first_least(*ord, spans@, a) && #[trigger] crate::range_lock::first_greatest(*ord, spans@, b) && r@ == (
                    crate::range_lock::KeyRangeView { min: Some(spans@[a].0@), max: Some(spans@[b].1@) });
                assert(v[a].min_key == spans@[a].0@);
                assert(v[b].max_key == spans@[b].1@);
                assert forall|k: int| 0 <= k < v.len() implies (r@.min matches Some(m) ==> ord.le(m, (#[trigger] v[k]).min_key)) && (
                r@.max matches Some(m) ==> ord.le(v[k].max_key, m)) by {
                    assert(spans@[k].0@ == v[k].min_key);
                }
                assert(has_min(v, spans@[a].0@)) by {
                    assert(v[a].min_key == spans@[a].0@);
                }
                assert(has_max(v, spans@[b].1@)) by {
                    assert(v[b].max_key == spans@[b].1@);
                }
            }
            r
        },
    }
}

/// How often the range is settled anew before every key is locked.
pub const SPAN_TRIES: usize = 4;

/// Locking the span of a partition, whose tables may change while the lock is
/// waited for.
#[derive(Debug)]
pub struct SpanLock {
    range: KeyRange,
    tries: usize,
    settled: bool,
}

/// What is to be locked for these tables at the `n`-th try.
pub open spec fn lock_for<C: Comparator>(ord: C, v: Seq<crate::manifest::SstMetaView>, n: int, r: crate::range_lock::KeyRangeView) -> bool {
    if n >= SPAN_TRIES || v.len() == 0 {
        r == (crate::range_lock::KeyRangeView { min: None, max: None })
    } else {
        range_spans(ord, v, r) && is_least_span(ord, v, r)
    }
}

impl SpanLock {
    /// The range to be locked.
    pub closed spec fn locks(self) -> crate::range_lock::KeyRangeView {
        self.range@
    }

    /// How often the range was settled anew.
    pub closed spec fn tried(self) -> int {
        self.tries as int
    }

    /// Whether what is locked is every key, so that it needs no second look.
    pub closed spec fn is_settled(self) -> bool {
        self.settled
    }

    pub closed spec fn inv(self) -> bool {
        &&& self.tries <= SPAN_TRIES
        &&& self.settled ==> self.range@ == (crate::range_lock::KeyRangeView { min: None, max: None })
    }

    /// The first try, for the tables as they are now.
    pub fn begin<C: Comparator>(ord: &C, tables: &Vec<SstMeta>) -> (r: SpanLock)
        ensures
            r.inv(),
            r.tried() == 0,
            lock_for(*ord, crate::manifest::sst_views(tables@), 0, r.locks()),
            r.is_settled() == (tables@.len() == 0),
    {
        SpanLock { range: span_to_lock(ord, tables), tries: 0, settled: tables.len() == 0 }
    }

    /// The range to be locked.
    pub fn range(&self) -> (r: &KeyRange)
        ensures
            r@ == self.locks(),
    {
        &self.range
    }

    /// The range is locked, and these are the tables now. Whether the lock is to
    /// be kept; else it is to be given up and another range locked, which after
    /// a few tries is that of every key.
    pub fn acquired<C: Comparator>(&mut self, ord: &C, tables: &Vec<SstMeta>) -> (keep: bool)
        requires
            old(self).inv(),
        ensures
            final(self).inv(),
            keep == (old(self).is_settled() || range_spans(*ord, crate::manifest::sst_views(tables@), old(self).locks())),
            keep ==> range_spans(*ord, crate::manifest::sst_views(tables@), final(self).locks()) && *final(self) == *old(self),
            !keep ==> {
                &&& final(self).tried() == (if old(self).tried() < SPAN_TRIES { old(self).tried() + 1 } else { old(self).tried() })
                &&& lock_for(*ord, crate::manifest::sst_views(tables@), final(self).tried(), final(self).locks())
                &&& final(self).is_settled() == (tables@.len() == 0 || final(self).tried() >= SPAN_TRIES)
            },
    {
        if self.settled || still_spans(ord, tables, &self.range) {
            return true;
        }
        if self.tries < SPAN_TRIES {
            self.tries = self.tries + 1;
        }
        if self.tries >= SPAN_TRIES || tables.len() == 0 {
            self.range = KeyRange { min: None, max: None };
            self.settled = true;
        } else {
            self.range = span_to_lock(ord, tables);
        }
        false
    }
}

pub open spec fn has_min(v: Seq<crate::manifest::SstMetaView>, k: Seq<u8>) -> bool {
    exists|i: int| 0 <= i < v.len() && (#[trigger] v[i]).min_key == k
}

pub open spec fn has_max(v: Seq<crate::manifest::SstMetaView>, k: Seq<u8>) -> bool {
    exists|i: int| 0 <= i < v.len() && (#[trigger] v[i]).max_key == k
}

/// Whether a range is no wider than the tables are.
pub open spec fn is_least_span<C: Comparator>(ord: C, v: Seq<crate::manifest::SstMetaView>, r: crate::range_lock::KeyRangeView) -> bool {
    (r.min matches Some(k) && has_min(v, k)) && (r.max matches Some(k) && has_max(v, k))
}

// ---------------------------------------------------------------------------
// What a move changes, and what it is for
// ---------------------------------------------------------------------------

/// A moved table is the same table on the named tier: it keeps its number,
/// keys, counts, sizes, partition, times and ranges. It is published under a
/// name made of the family, the instance and its number if and only if the
/// tier is shared.
pub proof fn lemma_moved_table_is_the_same_table(db: DB, cf_name: Seq<char>, t: crate::manifest::SstMetaView, tier: Seq<char>)
    ensures
        ({
            let m = moved(db, cf_name, t, tier);
            &&& m.tier == Some(tier)
            &&& crate::parts::agree_but_for_tier(crate::manifest::SstMetaView { object: t.object, ..m }, t)
            &&& crate::db::is_shared_tier(db.tiers@, tier) ==> m.object == Some(object_text(cf_name, db.instance_nonce->0, t.id))
            &&& !crate::db::is_shared_tier(db.tiers@, tier) ==> m.object is None
        }),
{
}

/// What is moved is every table of the part that is not on the tier already
/// and on no shared one, in order, and no other.
pub proof fn lemma_every_table_elsewhere_is_moved(v: Seq<crate::manifest::SstMetaView>, tier: Seq<char>, tiers: Seq<crate::db::TierDef>)
    ensures
        movable(v, tier, tiers) == v.filter(
            |t: crate::manifest::SstMetaView|
                match t.tier {
                    None => true,
                    Some(n) => n != tier && forall|d: int| 0 <= d < tiers.len() && (#[trigger] tiers[d]).name@ == n ==> !tiers[d].shared,
                },
        ),
    decreases v.len(),
{
    reveal(Seq::filter);
    if v.len() > 0 {
        lemma_every_table_elsewhere_is_moved(v.drop_last(), tier, tiers);
    }
}

/// A rule sends a part if and only if it is the rule with the longest prefix
/// of the part's first key, its tier is neither the local one nor where the
/// part lies, and more time than it asks for has passed since the newest entry.
pub proof fn lemma_rule_sends_what_is_old_enough(rules: Seq<TierRule>, part: BottomPart, now: i64, i: int)
    requires
        0 <= i < rules.len(),
        rules[i].min_age < i64::MAX,
    ensures
        sends(rules, part, now, i) <==> {
            &&& crate::prefix_rule::decides(rules, part.min_key@, i)
            &&& rules[i].tier@ != "ssd"@
            &&& part.tier matches Some(t) ==> t@ != rules[i].tier@
            &&& part.max_entry_time is Some
            &&& now - part.max_entry_time->0 > rules[i].min_age
        },
{
}

/// One pass of the mover takes every part that a rule sends and that is on no
/// shared tier, each once, each by a rule that sends it, and no other.
pub proof fn lemma_mover_takes_what_is_sent(
    rules: Seq<TierRule>,
    tiers: Seq<crate::db::TierDef>,
    parts: Seq<BottomPart>,
    now: i64,
    m: Seq<(usize, usize)>,
    k: int,
)
    requires
        is_mover_pass(rules, tiers, parts, now, m),
        0 <= k < m.len(),
    ensures
        m[k].0 < parts.len(),
        sends(rules, parts[m[k].0 as int], now, m[k].1 as int),
        parts[m[k].0 as int].tier matches Some(t) ==> forall|d: int|
            0 <= d < tiers.len() && (#[trigger] tiers[d]).name@ == t@ ==> !tiers[d].shared,
        forall|j: int| 0 <= j < m.len() && j != k ==> (#[trigger] m[j]).0 != m[k].0,
{
    assert(!is_published(tiers, parts[m[k].0 as int]));
    assert forall|j: int| 0 <= j < m.len() && j != k implies (#[trigger] m[j]).0 != m[k].0 by {
        if j < k {
            assert(m[j].0 < m[k].0);
        } else {
            assert(m[k].0 < m[j].0);
        }
    }
}

/// A part on no shared tier that one rule decides on and sends is taken.
pub proof fn lemma_mover_leaves_nothing_behind(
    rules: Seq<TierRule>,
    tiers: Seq<crate::db::TierDef>,
    parts: Seq<BottomPart>,
    now: i64,
    m: Seq<(usize, usize)>,
    p: int,
    i: int,
)
    requires
        is_mover_pass(rules, tiers, parts, now, m),
        0 <= p < parts.len(),
        sends(rules, parts[p], now, i),
        forall|j: int| #[trigger] crate::prefix_rule::decides(rules, parts[p].min_key@, j) ==> j == i,
        parts[p].tier matches Some(t) ==> forall|d: int| 0 <= d < tiers.len() && (#[trigger] tiers[d]).name@ == t@ ==> !tiers[d].shared,
    ensures
        exists|k: int| 0 <= k < m.len() && (#[trigger] m[k]).0 == p && m[k].1 == i,
{
    assert(!is_published(tiers, parts[p]));
    assert(crate::prefix_rule::decides(rules, parts[p].min_key@, i));
    assert(crate::prefix_rule::starts_with(parts[p].min_key@, rules[i].prefix@));
    assert(!crate::prefix_rule::undecided(rules, parts[p].min_key@));
    let k = choose|k: int| 0 <= k < m.len() && (#[trigger] m[k]).0 == p;
    assert(sends(rules, parts[m[k].0 as int], now, m[k].1 as int));
}

/// The key log of a table lies under the root of its tier, or of the default
/// one where the tier is unknown: under its published name where it has one,
/// and otherwise in the directory of its family under its number.
pub proof fn lemma_key_log_lies_under_its_tier(db: DB, cf_name: Seq<char>, t: crate::manifest::SstMetaView, p: Seq<char>)
    requires
        is_klog_path(db, cf_name, t, p),
    ensures
        exists|root: Seq<char>|
            {
                &&& t.tier is None ==> root == db.roots.default_root@
                &&& t.tier matches Some(n) ==> (forall|i: int|
                    {
                        &&& 0 <= i < db.roots.tiers@.len()
                        &&& (#[trigger] db.roots.tiers@[i]).name@ == n
                        &&& forall|j: int| 0 <= j < i ==> (#[trigger] db.roots.tiers@[j]).name@ != n
                    } ==> root == db.roots.tiers@[i].root@)
                &&& t.tier matches Some(n) ==> (forall|j: int| 0 <= j < db.roots.tiers@.len() ==> (#[trigger] db.roots.tiers@[j]).name@ != n)
                    ==> root == db.roots.default_root@
                &&& t.object matches Some(o) ==> p == #[trigger] (root + "/"@) + o + ".klog"@
                &&& t.object is None ==> p == root + "/"@ + crate::format::cf_dir_text(cf_name) + "/"@ + crate::text::decimal_text(t.id as nat)
                    + ".klog"@
            },
{
    let root = choose|root: Seq<char>| #[trigger]
        db.roots.root_text(t.tier, root) && p == (match t.object {
            Some(o) => root + "/"@ + o + ".klog"@,
            None => crate::storage::child_path(root, crate::format::cf_dir_text(cf_name)) + "/"@ + crate::text::decimal_text(t.id as nat) + ".klog"@,
        });
    if let Some(n) = t.tier {
        if exists|i: int| #[trigger] crate::storage::names_tier(db.roots.tiers@, n, i) && root == db.roots.tiers@[i].root@ {
            let i = choose|i: int| #[trigger] crate::storage::names_tier(db.roots.tiers@, n, i) && root == db.roots.tiers@[i].root@;
            assert(db.roots.tiers@[i].name@ == n);
            assert forall|k: int|
                {
                    &&& 0 <= k < db.roots.tiers@.len()
                    &&& (#[trigger] db.roots.tiers@[k]).name@ == n
                    &&& forall|j: int| 0 <= j < k ==> (#[trigger] db.roots.tiers@[j]).name@ != n
                } implies root == db.roots.tiers@[k].root@ by {
                if k < i {
                    assert(db.roots.tiers@[k].name@ != n);
                }
                if i < k {
                    assert(db.roots.tiers@[i].name@ != n);
                }
            }
        }
    }
    assert((root + "/"@) + Seq::empty() =~= root + "/"@);
}

/// The range that is locked for a move covers every key of every table of the
/// part, and no range that does is narrower.
pub proof fn lemma_lock_covers_the_part<C: Comparator>(
    ord: C,
    v: Seq<crate::manifest::SstMetaView>,
    n: int,
    r: crate::range_lock::KeyRangeView,
    i: int,
    key: Seq<u8>,
)
    requires
        lock_for(ord, v, n, r),
        0 <= i < v.len(),
        ord.le(v[i].min_key, key),
        ord.le(key, v[i].max_key),
    ensures
        r.min matches Some(m) ==> ord.le(m, key),
        r.max matches Some(m) ==> ord.le(key, m),
        n >= SPAN_TRIES ==> r.min is None && r.max is None,
        n < SPAN_TRIES ==> (r.min matches Some(m) && exists|j: int| 0 <= j < v.len() && m == (#[trigger] v[j]).min_key),
        n < SPAN_TRIES ==> (r.max matches Some(m) && exists|j: int| 0 <= j < v.len() && m == (#[trigger] v[j]).max_key),
{
    crate::comparator::lemma_order(ord);
}

/// A range still spans the tables if and only if it holds both ends of each.
pub proof fn lemma_span_holds_both_ends<C: Comparator>(ord: C, v: Seq<crate::manifest::SstMetaView>, min: Seq<u8>, max: Seq<u8>)
    requires
        forall|i: int| 0 <= i < v.len() ==> ord.le((#[trigger] v[i]).min_key, v[i].max_key),
    ensures
        range_spans(ord, v, crate::range_lock::KeyRangeView { min: Some(min), max: Some(max) }) <==> forall|i: int|
            0 <= i < v.len() ==> ord.le(min, (#[trigger] v[i]).min_key) && ord.le(v[i].min_key, max) && ord.le(min, v[i].max_key) && ord.le(
                v[i].max_key,
                max,
            ),
{
    crate::comparator::lemma_order(ord);
}

/// The whole range spans whatever there is.
pub proof fn lemma_everything_spans<C: Comparator>(ord: C, v: Seq<crate::manifest::SstMetaView>)
    ensures
        range_spans(ord, v, crate::range_lock::KeyRangeView { min: None, max: None }),
{
}

/// A plan names each table that moves as it is and as it will be, and where its
/// key log lies before and after.
pub proof fn lemma_plan_is_one_for_one(
    r: Relocation,
    db: DB,
    cf_name: Seq<char>,
    v: Seq<crate::manifest::SstMetaView>,
    tier: Seq<char>,
    i: int,
)
    requires
        relocates(r, db, cf_name, v, tier),
        0 <= i < v.len(),
    ensures
        r.from@.len() == v.len() && r.to@.len() == v.len() && r.sources@.len() == v.len() && r.targets@.len() == v.len(),
        r.from@[i]@ == v[i],
        r.to@[i]@.id == v[i].id,
        r.to@[i]@.tier == Some(tier),
        r.to@[i]@.min_key == v[i].min_key && r.to@[i]@.max_key == v[i].max_key,
        is_klog_path(db, cf_name, r.from@[i]@, r.sources@[i]@),
        is_klog_path(db, cf_name, r.to@[i]@, r.targets@[i]@),
{
    assert(crate::manifest::sst_views(r.from@)[i] == r.from@[i]@);
    assert(r.to@[i]@ == moved(db, cf_name, v[i], tier));
    assert(is_klog_path(db, cf_name, v[i], r.sources@[i]@));
    assert(is_klog_path(db, cf_name, moved(db, cf_name, v[i], tier), r.targets@[i]@));
}

/// An observer can stop a move while the source is still the one that counts:
/// when a file was copied and when all are durable, and no later.
pub proof fn lemma_observer_can_stop_a_move_before_the_flip(object_index: usize, object_count: usize, remaining_files: usize)
    ensures
        (MovePhase::CopyComplete { object_index, object_count }).can_fail(),
        MovePhase::DestinationSynced.can_fail(),
        !MovePhase::ManifestFlipped.can_fail(),
        !(MovePhase::SourceDeleteFinished { remaining_files }).can_fail(),
{
}

/// Two phases are of a kind if and only if they are the same variant.
pub proof fn lemma_phases_are_told_apart(a: MovePhase, b: MovePhase)
    ensures
        a.phase_number() == b.phase_number() <==> (a is CopyComplete && b is CopyComplete) || (a is DestinationSynced && b is DestinationSynced)
            || (a is ManifestFlipped && b is ManifestFlipped) || (a is SourceDeleteFinished && b is SourceDeleteFinished),
{
}

/// A listing tells of a partition its name, its first key and its tier, and is
/// in the order of the names.
pub proof fn lemma_listing_tells_the_partitions(parts: Seq<BottomPart>, infos: Seq<PartitionInfo>, i: int, j: int)
    requires
        by_name(info_views(infos)),
        0 <= i < j < infos.len(),
        infos.len() <= parts.len(),
    ensures
        crate::comparator::bytes_le(vstd::utf8::encode_utf8(infos[i].partition@), vstd::utf8::encode_utf8(infos[j].partition@)),
        info_views(infos)[i].partition == infos[i].partition@,
        info_views(infos)[i].min_key == infos[i].min_key@,
        infos[i].tier is None <==> info_views(infos)[i].tier is None,
        infos[i].tier matches Some(t) ==> info_views(infos)[i].tier == Some(t@),
        part_views(parts)[i].partition == parts[i].partition@,
        part_views(parts)[i].min_key == parts[i].min_key@,
        parts[i].tier is None <==> part_views(parts)[i].tier is None,
        parts[i].tier matches Some(t) ==> part_views(parts)[i].tier == Some(t@),
{
    assert(info_views(infos)[j].partition == infos[j].partition@);
}

/// Rules are found by their prefix alone.
pub proof fn lemma_rules_go_by_prefix(rules: Seq<PartitionRule>, prefix: Seq<u8>)
    ensures
        has_rule(rules, prefix) <==> exists|i: int| 0 <= i < rules.len() && (#[trigger] rules[i]).prefix@ == prefix,
{
    if has_rule(rules, prefix) {
        let i = choose|i: int| rule_at(rules, prefix, i);
        assert(rules[i].prefix@ == prefix);
    }
    if exists|i: int| 0 <= i < rules.len() && (#[trigger] rules[i]).prefix@ == prefix {
        let i = choose|i: int| 0 <= i < rules.len() && (#[trigger] rules[i]).prefix@ == prefix;
        assert(rule_at(rules, prefix, i));
    }
}

} // verus!
