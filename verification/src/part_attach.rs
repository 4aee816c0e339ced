//! Bringing the tables of a part into a column family.

use vstd::prelude::*;
use vstd::string::StringExecFns;

use crate::comparator::Comparator;
use crate::db::{ColumnFamily, DB};
use crate::encoding::{bytes_eq, copy_bytes};
use crate::error::OndaError;
use crate::manifest::SstMeta;
use crate::parts::PartManifest;
use crate::text::copy_opt_string;

verus! {

/// What is found in a table when it is opened, and the partition that its
/// smallest key belongs to.
#[derive(Debug)]
pub struct TableFacts {
    pub min_key: Vec<u8>,
    pub max_key: Vec<u8>,
    pub max_seq: u64,
    pub num_entries: u64,
    pub klog_size: u64,
    pub vlog_size: u64,
    pub partition: Option<String>,
}

/// A table that is to come in, and whether it goes to the bottom level.
#[derive(Debug)]
pub struct Staged {
    pub meta: SstMeta,
    pub at_bottom: bool,
}

/// Whether two ranges of keys, bounds included, have a key in common.
pub open spec fn spans_meet<C: Comparator>(ord: C, amin: Seq<u8>, amax: Seq<u8>, bmin: Seq<u8>, bmax: Seq<u8>) -> bool {
    ord.le(amin, bmax) && ord.le(bmin, amax)
}

/// Whether a range meets a table at the bottom level.
pub open spec fn meets_bottom<C: Comparator>(ord: C, bottom: Seq<crate::manifest::SstMetaView>, min: Seq<u8>, max: Seq<u8>) -> bool {
    exists|i: int| 0 <= i < bottom.len() && spans_meet(ord, min, max, (#[trigger] bottom[i]).min_key, bottom[i].max_key)
}

/// Whether a range meets one of some others.
pub open spec fn meets_any<C: Comparator>(ord: C, v: Seq<(Seq<u8>, Seq<u8>)>, min: Seq<u8>, max: Seq<u8>) -> bool {
    exists|i: int| 0 <= i < v.len() && spans_meet(ord, min, max, (#[trigger] v[i]).0, v[i].1)
}

/// The ranges of those of the first `n` tables that come in which go to the
/// bottom level: they meet no table there, and none of those before them that
/// go there.
pub open spec fn down_ranges<C: Comparator>(ord: C, bottom: Seq<crate::manifest::SstMetaView>, ranges: Seq<(Seq<u8>, Seq<u8>)>, n: int) -> Seq<
    (Seq<u8>, Seq<u8>),
>
    decreases n,
{
    if n <= 0 {
        Seq::empty()
    } else {
        let front = down_ranges(ord, bottom, ranges, n - 1);
        let x = ranges[n - 1];
        if meets_bottom(ord, bottom, x.0, x.1) || meets_any(ord, front, x.0, x.1) { front } else { front.push(x) }
    }
}

/// Whether table `i` of those that come in goes to the bottom level.
pub open spec fn goes_down<C: Comparator>(ord: C, bottom: Seq<crate::manifest::SstMetaView>, ranges: Seq<(Seq<u8>, Seq<u8>)>, i: int) -> bool {
    !meets_bottom(ord, bottom, ranges[i].0, ranges[i].1) && !meets_any(ord, down_ranges(ord, bottom, ranges, i), ranges[i].0, ranges[i].1)
}

pub open spec fn fact_ranges(v: Seq<TableFacts>) -> Seq<(Seq<u8>, Seq<u8>)> {
    v.map_values(|t: TableFacts| (t.min_key@, t.max_key@))
}

pub open spec fn part_ranges(v: Seq<crate::parts::PartTable>) -> Seq<(Seq<u8>, Seq<u8>)> {
    v.map_values(|t: crate::parts::PartTable| (t.min_key@, t.max_key@))
}

/// Whether a range meets one of those that were staged.
pub fn staged_range_overlaps<C: Comparator>(ord: &C, staged: &Vec<(Vec<u8>, Vec<u8>)>, min_key: &[u8], max_key: &[u8]) -> (r: bool)
    ensures
        r == exists|i: int|
            0 <= i < staged@.len() && spans_meet(*ord, min_key@, max_key@, (#[trigger] staged@[i]).0@, staged@[i].1@),
{
    let mut i: usize = 0;
    while i < staged.len()
        invariant
            i <= staged@.len(),
            forall|k: int| 0 <= k < i ==> !spans_meet(*ord, min_key@, max_key@, (#[trigger] staged@[k]).0@, staged@[k].1@),
        decreases staged@.len() - i,
    {
        let s = &staged[i];
        if ord.compare(min_key, s.1.as_slice()).is_le() && ord.compare(s.0.as_slice(), max_key).is_le() {
            assert(spans_meet(*ord, min_key@, max_key@, staged@[i as int].0@, staged@[i as int].1@));
            return true;
        }
        i += 1;
    }
    false
}

impl<C: Comparator> ColumnFamily<C> {
    /// Whether a range meets a table at the bottom level.
    pub fn bottom_overlaps(&self, min_key: &[u8], max_key: &[u8]) -> (r: bool)
        ensures
            r == meets_bottom(self.ord, self.tables(), min_key@, max_key@),
    {
        let ghost v = self.tables();
        let mut i: usize = 0;
        while i < self.bottom.len()
            invariant
                i <= self.bottom@.len(),
                v == crate::manifest::sst_views(self.bottom@),
                forall|k: int| 0 <= k < i ==> !spans_meet(self.ord, min_key@, max_key@, (#[trigger] v[k]).min_key, v[k].max_key),
            decreases self.bottom@.len() - i,
        {
            let t = &self.bottom[i];
            assert(v[i as int] == self.bottom@[i as int]@);
            if self.ord.compare(min_key, t.max_key.as_slice()).is_le() && self.ord.compare(t.min_key.as_slice(), max_key).is_le() {
                assert(spans_meet(self.ord, min_key@, max_key@, v[i as int].min_key, v[i as int].max_key));
                return true;
            }
            i += 1;
        }
        false
    }
}

pub open spec fn staged_views(v: Seq<(Vec<u8>, Vec<u8>)>) -> Seq<(Seq<u8>, Seq<u8>)> {
    v.map_values(|x: (Vec<u8>, Vec<u8>)| (x.0@, x.1@))
}

/// Whether table `i` goes down, given the ranges that were staged before it.
fn stage<C: Comparator>(
    cf: &ColumnFamily<C>,
    staged: &mut Vec<(Vec<u8>, Vec<u8>)>,
    min_key: &[u8],
    max_key: &[u8],
    Ghost(ranges): Ghost<Seq<(Seq<u8>, Seq<u8>)>>,
    Ghost(i): Ghost<int>,
) -> (r: bool)
    requires
        0 <= i < ranges.len(),
        ranges[i] == (min_key@, max_key@),
        staged_views(old(staged)@) == down_ranges(cf.ord, cf.tables(), ranges, i),
    ensures
        r == goes_down(cf.ord, cf.tables(), ranges, i),
        staged_views(final(staged)@) == down_ranges(cf.ord, cf.tables(), ranges, i + 1),
{
    let ghost d = down_ranges(cf.ord, cf.tables(), ranges, i);
    let meets = staged_range_overlaps(&cf.ord, staged, min_key, max_key);
    let down = !cf.bottom_overlaps(min_key, max_key) && !meets;
    proof {
        assert(forall|k: int| 0 <= k < d.len() ==> #[trigger] d[k] == (staged@[k].0@, staged@[k].1@));
        if meets {
            let k = choose|k: int| 0 <= k < staged@.len() && spans_meet(cf.ord, min_key@, max_key@, (#[trigger] staged@[k]).0@, staged@[k].1@);
            assert(spans_meet(cf.ord, min_key@, max_key@, d[k].0, d[k].1));
        } else if meets_any(cf.ord, d, min_key@, max_key@) {
            let k = choose|k: int| 0 <= k < d.len() && spans_meet(cf.ord, min_key@, max_key@, (#[trigger] d[k]).0, d[k].1);
            assert(spans_meet(cf.ord, min_key@, max_key@, staged@[k].0@, staged@[k].1@));
        }
    }
    if down {
        let ghost s0 = staged@;
        let x = (copy_bytes(min_key), copy_bytes(max_key));
        staged.push(x);
        assert(staged_views(staged@) =~= staged_views(s0).push((min_key@, max_key@)));
    }
    down
}

/// The catalog entry of table `i` of those that come in.
pub open spec fn attached(
    id: u64,
    down: bool,
    bottom_level: u32,
    min: Seq<u8>,
    max: Seq<u8>,
    max_seq: u64,
    num_entries: u64,
    klog_size: u64,
    vlog_size: u64,
    partition: Option<Seq<char>>,
    tier: Option<Seq<char>>,
    object: Option<Seq<char>>,
    now: i64,
) -> crate::manifest::SstMetaView {
    crate::manifest::SstMetaView {
        id,
        level: if down { bottom_level } else { 0 },
        num_entries,
        max_seq,
        klog_size,
        vlog_size,
        min_key: min,
        max_key: max,
        partition: if down { partition } else { None },
        tier,
        object,
        max_entry_time: Some(now),
        ..crate::manifest::blank_sst()
    }
}

pub open spec fn attached_fact<C: Comparator>(cf: ColumnFamily<C>, facts: Seq<TableFacts>, first: u64, now: i64, i: int) -> crate::manifest::SstMetaView {
    let t = facts[i];
    attached(
        (first + i) as u64,
        goes_down(cf.ord, cf.tables(), fact_ranges(facts), i),
        cf.bottom_level,
        t.min_key@,
        t.max_key@,
        t.max_seq,
        t.num_entries,
        t.klog_size,
        t.vlog_size,
        crate::text::opt_text(t.partition),
        None,
        None,
        now,
    )
}

/// Whether a table is newer than what is visible.
pub open spec fn is_foreign(facts: Seq<TableFacts>, visible: u64, i: int) -> bool {
    0 <= i < facts.len() && facts[i].max_seq > visible
}

/// Whether table `i` is the first that is newer than what is visible.
pub open spec fn first_foreign(facts: Seq<TableFacts>, visible: u64, i: int) -> bool {
    is_foreign(facts, visible, i) && forall|k: int| 0 <= k < i ==> !#[trigger] is_foreign(facts, visible, k)
}

impl DB {
    /// Refuse a table that is newer than what is visible.
    pub fn check_lineage(&self, t: &TableFacts) -> (r: Result<(), OndaError>)
        ensures
            r is Ok <==> t.max_seq <= self.visible_seq,
            r is Err ==> r->Err_0 is InvalidArgs,
    {
        if t.max_seq > self.visible_seq {
            return Err(
                OndaError::InvalidArgs(crate::text::with_number("attach rejected: table max_seq ", t.max_seq, " exceeds the visible sequence")),
            );
        }
        Ok(())
    }

    /// Bring in the tables of a part of this database: their catalog entries,
    /// under new numbers. A table goes to the bottom level where it meets no
    /// other there. Tables newer than what is visible are refused, and then
    /// none comes in.
    pub fn attach_part<C: Comparator>(&mut self, cf: &ColumnFamily<C>, facts: &Vec<TableFacts>, now: i64) -> (r: Result<Vec<Staged>, OndaError>)
        requires
            old(self).next_file_id + facts@.len() <= u64::MAX,
        ensures
            old(self).read_only ==> r is Err && r->Err_0 is ReadOnly && *final(self) == *old(self),
            !old(self).read_only && old(self).poisoned ==> r is Err && r->Err_0 is Poisoned && *final(self) == *old(self),
            !old(self).read_only && !old(self).poisoned && facts@.len() == 0 ==> r is Err && r->Err_0 is InvalidArgs && *final(self) == *old(self),
            !old(self).read_only && !old(self).poisoned && facts@.len() > 0 ==> {
                &&& r is Err <==> exists|i: int| #[trigger] is_foreign(facts@, old(self).visible_seq, i)
                &&& r is Err ==> r->Err_0 is InvalidArgs && exists|i: int| #[trigger]
                    first_foreign(facts@, old(self).visible_seq, i) && final(self).next_file_id == old(self).next_file_id + i + 1
                &&& r matches Ok(v) ==> {
                    &&& v@.len() == facts@.len()
                    &&& final(self).next_file_id == old(self).next_file_id + facts@.len()
                    &&& forall|i: int|
                        0 <= i < v@.len() ==> (#[trigger] v@[i]).meta@ == attached_fact(*cf, facts@, old(self).next_file_id, now, i)
                            && v@[i].at_bottom == goes_down(cf.ord, cf.tables(), fact_ranges(facts@), i)
                    &&& crate::bottom_level::staged_for(cf.ord, cf.tables(), crate::bottom_level::stages(v@))
                }
            },
            *final(self) == (DB { next_file_id: final(self).next_file_id, ..*old(self) }),
    {
        self.check_writable()?;
        if facts.len() == 0 {
            return Err(OndaError::InvalidArgs(crate::text::join3("no .klog files", " to attach", "")));
        }
        let ghost ranges = fact_ranges(facts@);
        let ghost first = self.next_file_id;
        let mut staged: Vec<(Vec<u8>, Vec<u8>)> = Vec::new();
        let mut out: Vec<Staged> = Vec::new();
        let mut i: usize = 0;
        assert(staged_views(staged@) =~= Seq::empty());
        while i < facts.len()
            invariant
                i <= facts@.len(),
                ranges == fact_ranges(facts@),
                first + facts@.len() <= u64::MAX,
                first == old(self).next_file_id,
                *self == (DB { next_file_id: (first + i) as u64, ..*old(self) }),
                !old(self).read_only && !old(self).poisoned && facts@.len() > 0,
                staged_views(staged@) == down_ranges(cf.ord, cf.tables(), ranges, i as int),
                out@.len() == i,
                forall|k: int| 0 <= k < i ==> !is_foreign(facts@, old(self).visible_seq, k),
                forall|k: int|
                    0 <= k < i ==> (#[trigger] out@[k]).meta@ == attached_fact(*cf, facts@, first, now, k) && out@[k].at_bottom == goes_down(
                        cf.ord,
                        cf.tables(),
                        ranges,
                        k,
                    ),
            decreases facts@.len() - i,
        {
            let id = self.next_file_id;
            self.next_file_id = id + 1;
            let t = &facts[i];
            match self.check_lineage(t) {
                Err(e) => {
                    assert(first_foreign(facts@, old(self).visible_seq, i as int));
                    return Err(e);
                },
                Ok(()) => {},
            }
            let down = stage(cf, &mut staged, t.min_key.as_slice(), t.max_key.as_slice(), Ghost(ranges), Ghost(i as int));
            let mut m = SstMeta::default();
            m.id = id;
            m.level = if down { cf.bottom_level } else { 0 };
            m.num_entries = t.num_entries;
            m.max_seq = t.max_seq;
            m.klog_size = t.klog_size;
            m.vlog_size = t.vlog_size;
            m.min_key = copy_bytes(t.min_key.as_slice());
            m.max_key = copy_bytes(t.max_key.as_slice());
            m.partition = if down { copy_opt_string(&t.partition) } else { None };
            m.max_entry_time = Some(now);
            assert(m@ == attached_fact(*cf, facts@, first, now, i as int));
            out.push(Staged { meta: m, at_bottom: down });
            i += 1;
        }
        assert(crate::bottom_level::stage_ranges(crate::bottom_level::stages(out@)) =~= ranges);
        Ok(out)
    }

    /// Refuse to mount a part that was not published on a shared tier.
    pub fn check_mount(&self, part: &PartManifest, tier: &str) -> (r: Result<(), OndaError>)
        ensures
            r is Ok <==> !self.read_only && !self.poisoned && published(*self, part.tables@, tier@),
            self.read_only ==> r is Err && r->Err_0 is ReadOnly,
            !self.read_only && self.poisoned ==> r is Err && r->Err_0 is Poisoned,
            !self.read_only && !self.poisoned && r is Err ==> r->Err_0 is InvalidArgs,
    {
        self.check_writable()?;
        if !self.tier_is_shared(tier) {
            return Err(OndaError::InvalidArgs(crate::text::join3("attach_part_by_ref: tier ", tier, " is not declared shared")));
        }
        if part.tables.len() == 0 {
            return Err(OndaError::InvalidArgs(crate::text::join3("empty part", " manifest", "")));
        }
        let mut k: usize = 0;
        while k < part.tables.len()
            invariant
                k <= part.tables@.len(),
                !self.read_only && !self.poisoned,
                forall|j: int| 0 <= j < k ==> (#[trigger] part.tables@[j]).object is Some,
            decreases part.tables@.len() - k,
        {
            if part.tables[k].object.is_none() {
                return Err(
                    OndaError::InvalidArgs(crate::text::with_number("attach_part_by_ref: table id ", part.tables[k].id, " carries no object name")),
                );
            }
            k += 1;
        }
        Ok(())
    }

    /// Bring in the tables of a part of another database by reference: their
    /// catalog entries, under new numbers, which point to the objects on the
    /// shared tier. What was found in each must be what the description says.
    /// What they hold becomes visible.
    pub fn attach_part_by_ref<C: Comparator>(
        &mut self,
        cf: &ColumnFamily<C>,
        part: &PartManifest,
        tier: &str,
        facts: &Vec<TableFacts>,
        now: i64,
    ) -> (r: Result<Vec<Staged>, OndaError>)
        requires
            facts@.len() == part.tables@.len(),
            old(self).next_file_id + facts@.len() <= u64::MAX,
        ensures
            old(self).read_only ==> r is Err && r->Err_0 is ReadOnly && *final(self) == *old(self),
            !old(self).read_only && old(self).poisoned ==> r is Err && r->Err_0 is Poisoned && *final(self) == *old(self),
            !old(self).read_only && !old(self).poisoned ==> {
                &&& r is Ok <==> mountable(*old(self), part.tables@, tier@, facts@)
                &&& r is Err ==> r->Err_0 is InvalidArgs
                &&& r is Err && !published(*old(self), part.tables@, tier@) ==> *final(self) == *old(self)
                &&& r is Err && published(*old(self), part.tables@, tier@) ==> exists|i: int| #[trigger]
                    first_disagreeing(part.tables@, facts@, i) && final(self).next_file_id == old(self).next_file_id + i + 1
                &&& r matches Ok(v) ==> {
                    &&& v@.len() == part.tables@.len()
                    &&& final(self).next_file_id == old(self).next_file_id + v@.len()
                    &&& seq_raised(part.tables@, old(self).visible_seq, final(self).visible_seq)
                    &&& forall|i: int|
                        0 <= i < v@.len() ==> (#[trigger] v@[i]).meta@ == attached_ref(*cf, part.tables@, facts@, tier@, old(self).next_file_id, now, i)
                            && v@[i].at_bottom == goes_down(cf.ord, cf.tables(), part_ranges(part.tables@), i)
                    &&& crate::bottom_level::staged_for(cf.ord, cf.tables(), crate::bottom_level::stages(v@))
                }
            },
            r is Err ==> final(self).visible_seq == old(self).visible_seq,
            *final(self) == (DB { next_file_id: final(self).next_file_id, visible_seq: final(self).visible_seq, ..*old(self) }),
    {
        self.check_mount(part, tier)?;
        let ghost ranges = part_ranges(part.tables@);
        let ghost first = self.next_file_id;
        let mut staged: Vec<(Vec<u8>, Vec<u8>)> = Vec::new();
        let mut out: Vec<Staged> = Vec::new();
        let mut max_seq: u64 = 0;
        let mut i: usize = 0;
        assert(staged_views(staged@) =~= Seq::empty());
        while i < part.tables.len()
            invariant
                i <= part.tables@.len(),
                facts@.len() == part.tables@.len(),
                ranges == part_ranges(part.tables@),
                first + facts@.len() <= u64::MAX,
                first == old(self).next_file_id,
                *self == (DB { next_file_id: (first + i) as u64, ..*old(self) }),
                !old(self).read_only && !old(self).poisoned,
                staged_views(staged@) == down_ranges(cf.ord, cf.tables(), ranges, i as int),
                out@.len() == i,
                forall|j: int| 0 <= j < i ==> agrees((#[trigger] part.tables@[j]), facts@[j]),
                published(*old(self), part.tables@, tier@),
                forall|j: int|
                    0 <= j < i ==> (#[trigger] out@[j]).meta@ == attached_ref(*cf, part.tables@, facts@, tier@, first, now, j) && out@[j].at_bottom
                        == goes_down(cf.ord, cf.tables(), ranges, j),
                forall|j: int| 0 <= j < i ==> (#[trigger] part.tables@[j]).max_seq <= max_seq,
                max_seq == 0 || exists|j: int| 0 <= j < i && (#[trigger] part.tables@[j]).max_seq == max_seq,
            decreases part.tables@.len() - i,
        {
            let id = self.next_file_id;
            self.next_file_id = id + 1;
            let t = &part.tables[i];
            let f = &facts[i];
            if f.num_entries != t.num_entries || f.max_seq != t.max_seq || !bytes_eq(f.min_key.as_slice(), t.min_key.as_slice()) || !bytes_eq(
                f.max_key.as_slice(),
                t.max_key.as_slice(),
            ) {
                assert(first_disagreeing(part.tables@, facts@, i as int));
                return Err(
                    OndaError::InvalidArgs(crate::text::with_number("attach_part_by_ref: table id ", t.id, " disagrees with the part manifest")),
                );
            }
            let down = stage(cf, &mut staged, t.min_key.as_slice(), t.max_key.as_slice(), Ghost(ranges), Ghost(i as int));
            let mut m = SstMeta::default();
            m.id = id;
            m.level = if down { cf.bottom_level } else { 0 };
            m.num_entries = t.num_entries;
            m.max_seq = t.max_seq;
            m.klog_size = t.klog_size;
            m.vlog_size = t.vlog_size;
            m.min_key = copy_bytes(t.min_key.as_slice());
            m.max_key = copy_bytes(t.max_key.as_slice());
            m.partition = if down { copy_opt_string(&f.partition) } else { None };
            m.tier = Some(String::from_str(tier));
            m.object = copy_opt_string(&t.object);
            m.max_entry_time = Some(now);
            assert(m@ == attached_ref(*cf, part.tables@, facts@, tier@, first, now, i as int));
            out.push(Staged { meta: m, at_bottom: down });
            if t.max_seq > max_seq {
                max_seq = t.max_seq;
            }
            i += 1;
        }
        if max_seq > self.visible_seq {
            self.visible_seq = max_seq;
        }
        assert(crate::bottom_level::stage_ranges(crate::bottom_level::stages(out@)) =~= ranges);
        Ok(out)
    }
}

/// Whether what was found in a table is what its description says.
pub open spec fn agrees(t: crate::parts::PartTable, f: TableFacts) -> bool {
    f.num_entries == t.num_entries && f.max_seq == t.max_seq && f.min_key@ == t.min_key@ && f.max_key@ == t.max_key@
}

/// Whether table `i` is the first in which something else was found than its
/// description says.
pub open spec fn first_disagreeing(tables: Seq<crate::parts::PartTable>, facts: Seq<TableFacts>, i: int) -> bool {
    &&& 0 <= i < tables.len()
    &&& !agrees(tables[i], facts[i])
    &&& forall|j: int| 0 <= j < i ==> agrees(#[trigger] tables[j], facts[j])
}

/// Whether a part was published on a shared tier.
pub open spec fn published(db: DB, tables: Seq<crate::parts::PartTable>, tier: Seq<char>) -> bool {
    &&& crate::db::is_shared_tier(db.tiers@, tier)
    &&& tables.len() > 0
    &&& forall|j: int| 0 <= j < tables.len() ==> (#[trigger] tables[j]).object is Some
}

/// Whether a part can be mounted from a tier.
pub open spec fn mountable(db: DB, tables: Seq<crate::parts::PartTable>, tier: Seq<char>, facts: Seq<TableFacts>) -> bool {
    &&& published(db, tables, tier)
    &&& forall|j: int| 0 <= j < tables.len() ==> agrees((#[trigger] tables[j]), facts[j])
}

/// Whether the visible sequence was raised to the newest of some tables, and no
/// further.
pub open spec fn seq_raised(tables: Seq<crate::parts::PartTable>, before: u64, after: u64) -> bool {
    &&& before <= after
    &&& forall|j: int| 0 <= j < tables.len() ==> (#[trigger] tables[j]).max_seq <= after
    &&& after == before || exists|j: int| 0 <= j < tables.len() && (#[trigger] tables[j]).max_seq == after
}

pub open spec fn attached_ref<C: Comparator>(
    cf: ColumnFamily<C>,
    tables: Seq<crate::parts::PartTable>,
    facts: Seq<TableFacts>,
    tier: Seq<char>,
    first: u64,
    now: i64,
    i: int,
) -> crate::manifest::SstMetaView {
    let t = tables[i];
    attached(
        (first + i) as u64,
        goes_down(cf.ord, cf.tables(), part_ranges(tables), i),
        cf.bottom_level,
        t.min_key@,
        t.max_key@,
        t.max_seq,
        t.num_entries,
        t.klog_size,
        t.vlog_size,
        crate::text::opt_text(facts[i].partition),
        Some(tier),
        crate::text::opt_text(t.object),
        now,
    )
}

/// Tables that go down meet neither a table at the bottom level nor each
/// other: the bottom level stays free of overlap.
pub proof fn lemma_bottom_stays_apart<C: Comparator>(
    ord: C,
    bottom: Seq<crate::manifest::SstMetaView>,
    ranges: Seq<(Seq<u8>, Seq<u8>)>,
    i: int,
    j: int,
)
    requires
        0 <= j < i < ranges.len(),
        goes_down(ord, bottom, ranges, i),
        goes_down(ord, bottom, ranges, j),
    ensures
        !meets_bottom(ord, bottom, ranges[i].0, ranges[i].1),
        !spans_meet(ord, ranges[i].0, ranges[i].1, ranges[j].0, ranges[j].1),
{
    let k = lemma_range_stays(ord, bottom, ranges, i, j);
    let d = down_ranges(ord, bottom, ranges, i);
    assert(!spans_meet(ord, ranges[i].0, ranges[i].1, d[k].0, d[k].1));
}

proof fn lemma_range_stays<C: Comparator>(
    ord: C,
    bottom: Seq<crate::manifest::SstMetaView>,
    ranges: Seq<(Seq<u8>, Seq<u8>)>,
    i: int,
    j: int,
) -> (k: int)
    requires
        0 <= j < i <= ranges.len(),
        goes_down(ord, bottom, ranges, j),
    ensures
        0 <= k < down_ranges(ord, bottom, ranges, i).len(),
        down_ranges(ord, bottom, ranges, i)[k] == ranges[j],
    decreases i,
{
    if j == i - 1 {
        down_ranges(ord, bottom, ranges, i).len() - 1
    } else {
        lemma_range_stays(ord, bottom, ranges, i - 1, j)
    }
}

/// Whether two tables have no key in common.
pub open spec fn are_apart<C: Comparator>(ord: C, a: crate::manifest::SstMetaView, b: crate::manifest::SstMetaView) -> bool {
    !spans_meet(ord, a.min_key, a.max_key, b.min_key, b.max_key)
}

/// Whether no two of these tables have a key in common.
pub open spec fn all_apart<C: Comparator>(ord: C, v: Seq<crate::manifest::SstMetaView>) -> bool {
    forall|i: int, j: int| 0 <= i < v.len() && 0 <= j < v.len() && i != j ==> are_apart(ord, #[trigger] v[i], #[trigger] v[j])
}

// ---------------------------------------------------------------------------
// What the catalog says of a table that came in
// ---------------------------------------------------------------------------

/// Whether a catalog entry says of a table what was found in it, or what its
/// description says: its keys, its newest sequence, its entries and the lengths
/// of its files.
pub open spec fn tells_of(
    t: crate::manifest::SstMetaView,
    min_key: Seq<u8>,
    max_key: Seq<u8>,
    max_seq: u64,
    num_entries: u64,
    klog_size: u64,
    vlog_size: u64,
) -> bool {
    &&& t.min_key == min_key
    &&& t.max_key == max_key
    &&& t.max_seq == max_seq
    &&& t.num_entries == num_entries
    &&& t.klog_size == klog_size
    &&& t.vlog_size == vlog_size
}

/// Whether nothing is said of a table that nobody has looked at: no deletions,
/// no ranges, and no compaction in this database.
pub open spec fn says_nothing_else(t: crate::manifest::SstMetaView) -> bool {
    &&& t.num_tombstones == 0
    &&& t.last_compaction_time is None
    &&& t.range_count == 0
    &&& t.range_min_seq == 0
    &&& t.range_max_seq == 0
    &&& t.range_min_key is None
    &&& t.range_max_key is None
}

/// Each catalog entry that attaching gives agrees with what was found in its
/// table, under the next number, on no named tier and as old as now. It is at
/// the bottom level in the partition of its smallest key, or at the top in
/// none.
pub proof fn lemma_attached_table_is_what_was_found<C: Comparator>(cf: ColumnFamily<C>, facts: Seq<TableFacts>, first: u64, now: i64, i: int)
    requires
        0 <= i < facts.len(),
        first + facts.len() <= u64::MAX,
    ensures
        ({
            let t = attached_fact(cf, facts, first, now, i);
            let f = facts[i];
            &&& tells_of(t, f.min_key@, f.max_key@, f.max_seq, f.num_entries, f.klog_size, f.vlog_size)
            &&& says_nothing_else(t)
            &&& t.id == first + i
            &&& t.tier is None
            &&& t.object is None
            &&& t.max_entry_time == Some(now)
            &&& goes_down(cf.ord, cf.tables(), fact_ranges(facts), i) ==> t.level == cf.bottom_level && t.partition == crate::text::opt_text(f.partition)
            &&& !goes_down(cf.ord, cf.tables(), fact_ranges(facts), i) ==> t.level == 0 && t.partition is None
        }),
{
}

/// Each catalog entry that mounting gives agrees with the description of its
/// table, under the next number, on the tier that it is mounted from, under
/// the name that it has there and as old as now.
pub proof fn lemma_mounted_table_is_what_was_described<C: Comparator>(
    cf: ColumnFamily<C>,
    tables: Seq<crate::parts::PartTable>,
    facts: Seq<TableFacts>,
    tier: Seq<char>,
    first: u64,
    now: i64,
    i: int,
)
    requires
        0 <= i < tables.len(),
        first + tables.len() <= u64::MAX,
    ensures
        ({
            let t = attached_ref(cf, tables, facts, tier, first, now, i);
            let d = tables[i];
            &&& tells_of(t, d.min_key@, d.max_key@, d.max_seq, d.num_entries, d.klog_size, d.vlog_size)
            &&& says_nothing_else(t)
            &&& t.id == first + i
            &&& t.tier == Some(tier)
            &&& t.object == crate::text::opt_text(d.object)
            &&& t.max_entry_time == Some(now)
            &&& goes_down(cf.ord, cf.tables(), part_ranges(tables), i) ==> t.level == cf.bottom_level && t.partition == crate::text::opt_text(
                facts[i].partition,
            )
            &&& !goes_down(cf.ord, cf.tables(), part_ranges(tables), i) ==> t.level == 0 && t.partition is None
        }),
{
}

/// Detaching a part and attaching what is found in its tables leaves what
/// identifies them, and so the digest of the part, as it was.
pub proof fn lemma_reattached_part_keeps_its_digest<C: Comparator>(
    cf: ColumnFamily<C>,
    part: Seq<crate::manifest::SstMetaView>,
    facts: Seq<TableFacts>,
    contents: Seq<[u8; 32]>,
    first: u64,
    now: i64,
)
    requires
        facts.len() == part.len(),
        contents.len() == part.len(),
        first + facts.len() <= u64::MAX,
        forall|i: int|
            #![trigger part[i]]
            0 <= i < part.len() ==> tells_of(
                part[i],
                facts[i].min_key@,
                facts[i].max_key@,
                facts[i].max_seq,
                facts[i].num_entries,
                facts[i].klog_size,
                facts[i].vlog_size,
            ),
    ensures
        ({
            let again = Seq::new(part.len(), |i: int| attached_fact(cf, facts, first, now, i));
            let before = crate::parts::all_described(part, contents).map_values(|t: crate::parts::PartTableView| t.identity);
            let after = crate::parts::all_described(again, contents).map_values(|t: crate::parts::PartTableView| t.identity);
            &&& before == after
            &&& crate::parts::part_wire(before) == crate::parts::part_wire(after)
        }),
{
    let again = Seq::new(part.len(), |i: int| attached_fact(cf, facts, first, now, i));
    let x = crate::parts::all_described(part, contents);
    let y = crate::parts::all_described(again, contents);
    let before = x.map_values(|t: crate::parts::PartTableView| t.identity);
    let after = y.map_values(|t: crate::parts::PartTableView| t.identity);
    assert forall|i: int| 0 <= i < before.len() implies before[i] == after[i] by {
        lemma_attached_table_is_what_was_found(cf, facts, first, now, i);
        assert(again[i] == attached_fact(cf, facts, first, now, i));
        assert(tells_of(
            part[i],
            facts[i].min_key@,
            facts[i].max_key@,
            facts[i].max_seq,
            facts[i].num_entries,
            facts[i].klog_size,
            facts[i].vlog_size,
        ));
        assert(x[i].identity == y[i].identity);
    }
    assert(before =~= after);
}

/// Two ranges of keys meet where some key lies in both, their ends counted in.
pub proof fn lemma_ranges_meet_in_a_key<C: Comparator>(ord: C, amin: Seq<u8>, amax: Seq<u8>, bmin: Seq<u8>, bmax: Seq<u8>)
    requires
        ord.le(amin, amax),
        ord.le(bmin, bmax),
    ensures
        spans_meet(ord, amin, amax, bmin, bmax) <==> exists|k: Seq<u8>| #[trigger]
            ord.le(amin, k) && ord.le(k, amax) && ord.le(bmin, k) && ord.le(k, bmax),
{
    crate::comparator::lemma_order(ord);
    if spans_meet(ord, amin, amax, bmin, bmax) {
        let k = if ord.le(amin, bmin) { bmin } else { amin };
        assert(ord.le(amin, k) && ord.le(k, amax) && ord.le(bmin, k) && ord.le(k, bmax));
    }
}

/// A table that comes in goes to the bottom level where it shares no key with a
/// table there, nor with one before it that goes there too; and nowhere else.
pub proof fn lemma_goes_down_where_it_fits<C: Comparator>(ord: C, bottom: Seq<crate::manifest::SstMetaView>, ranges: Seq<(Seq<u8>, Seq<u8>)>, i: int)
    requires
        0 <= i < ranges.len(),
    ensures
        goes_down(ord, bottom, ranges, i) <==> {
            &&& forall|b: int|
                0 <= b < bottom.len() ==> !(ord.le(ranges[i].0, (#[trigger] bottom[b]).max_key) && ord.le(bottom[b].min_key, ranges[i].1))
            &&& forall|j: int|
                0 <= j < i && #[trigger] goes_down(ord, bottom, ranges, j) ==> !(ord.le(ranges[i].0, ranges[j].1) && ord.le(
                    ranges[j].0,
                    ranges[i].1,
                ))
        },
{
    let x = ranges[i];
    let d = down_ranges(ord, bottom, ranges, i);
    if goes_down(ord, bottom, ranges, i) {
        assert forall|b: int| 0 <= b < bottom.len() implies !(ord.le(x.0, (#[trigger] bottom[b]).max_key) && ord.le(bottom[b].min_key, x.1)) by {
            assert(!spans_meet(ord, x.0, x.1, bottom[b].min_key, bottom[b].max_key));
        }
        assert forall|j: int| 0 <= j < i && #[trigger] goes_down(ord, bottom, ranges, j) implies !(ord.le(x.0, ranges[j].1) && ord.le(
            ranges[j].0,
            x.1,
        )) by {
            lemma_bottom_stays_apart(ord, bottom, ranges, i, j);
        }
    } else if meets_bottom(ord, bottom, x.0, x.1) {
        let b = choose|b: int| 0 <= b < bottom.len() && spans_meet(ord, x.0, x.1, (#[trigger] bottom[b]).min_key, bottom[b].max_key);
        assert(ord.le(x.0, bottom[b].max_key) && ord.le(bottom[b].min_key, x.1));
    } else {
        let k = choose|k: int| 0 <= k < d.len() && spans_meet(ord, x.0, x.1, (#[trigger] d[k]).0, d[k].1);
        let j = lemma_down_came_from(ord, bottom, ranges, i, k);
        assert(goes_down(ord, bottom, ranges, j));
    }
}

proof fn lemma_down_came_from<C: Comparator>(
    ord: C,
    bottom: Seq<crate::manifest::SstMetaView>,
    ranges: Seq<(Seq<u8>, Seq<u8>)>,
    n: int,
    k: int,
) -> (j: int)
    requires
        0 <= n <= ranges.len(),
        0 <= k < down_ranges(ord, bottom, ranges, n).len(),
    ensures
        0 <= j < n,
        goes_down(ord, bottom, ranges, j),
        down_ranges(ord, bottom, ranges, n)[k] == ranges[j],
    decreases n,
{
    let front = down_ranges(ord, bottom, ranges, n - 1);
    if k < front.len() {
        lemma_down_came_from(ord, bottom, ranges, n - 1, k)
    } else {
        n - 1
    }
}

/// A part is mounted where its tier is shared, it has tables, each is published
/// there, and in each was found what its description says: its entries, its
/// newest sequence and its keys.
pub proof fn lemma_mounting_asks_for_agreement(db: DB, tables: Seq<crate::parts::PartTable>, tier: Seq<char>, facts: Seq<TableFacts>)
    requires
        facts.len() == tables.len(),
    ensures
        mountable(db, tables, tier, facts) <==> {
            &&& tables.len() > 0
            &&& exists|d: int| 0 <= d < db.tiers@.len() && (#[trigger] db.tiers@[d]).name@ == tier && db.tiers@[d].shared
            &&& forall|i: int|
                #![trigger tables[i]]
                0 <= i < tables.len() ==> tables[i].object is Some && facts[i].num_entries == tables[i].num_entries && facts[i].max_seq
                    == tables[i].max_seq && facts[i].min_key@ == tables[i].min_key@ && facts[i].max_key@ == tables[i].max_key@
        },
{
}

/// Mounting makes every sequence of the mounted tables visible, and hides none
/// that was.
pub proof fn lemma_mounted_tables_are_visible(tables: Seq<crate::parts::PartTable>, before: u64, after: u64, s: u64)
    requires
        seq_raised(tables, before, after),
    ensures
        s <= before ==> s <= after,
        (exists|i: int| 0 <= i < tables.len() && s <= (#[trigger] tables[i]).max_seq) ==> s <= after,
        s <= after ==> s <= before || exists|i: int| 0 <= i < tables.len() && s <= (#[trigger] tables[i]).max_seq,
{
}

/// The tables that are refused are those with a sequence that is not visible.
pub proof fn lemma_foreign_is_not_visible(facts: Seq<TableFacts>, visible: u64, i: int)
    requires
        0 <= i < facts.len(),
    ensures
        is_foreign(facts, visible, i) <==> !(facts[i].max_seq <= visible),
{
}

/// The table that is named when attaching is refused is the first with a
/// sequence that is not visible.
pub proof fn lemma_first_foreign_is_the_first(facts: Seq<TableFacts>, visible: u64, i: int, j: int)
    requires
        first_foreign(facts, visible, i),
    ensures
        0 <= i < facts.len(),
        facts[i].max_seq > visible,
        0 <= j < i ==> facts[j].max_seq <= visible,
{
    if 0 <= j < i {
        assert(!is_foreign(facts, visible, j));
    }
}

/// The table that is named when mounting is refused is the first in which
/// something else was found than its description says.
pub proof fn lemma_first_disagreeing_is_the_first(tables: Seq<crate::parts::PartTable>, facts: Seq<TableFacts>, i: int, j: int)
    requires
        first_disagreeing(tables, facts, i),
    ensures
        0 <= i < tables.len(),
        !(facts[i].num_entries == tables[i].num_entries && facts[i].max_seq == tables[i].max_seq && facts[i].min_key@ == tables[i].min_key@
            && facts[i].max_key@ == tables[i].max_key@),
        0 <= j < i ==> facts[j].num_entries == tables[j].num_entries && facts[j].max_seq == tables[j].max_seq && facts[j].min_key@
            == tables[j].min_key@ && facts[j].max_key@ == tables[j].max_key@,
{
    if 0 <= j < i {
        assert(agrees(tables[j], facts[j]));
    }
}

} // verus!
