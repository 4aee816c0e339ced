//! What a version edit means: when it is acceptable, and what the catalog is
//! after it.

use vstd::prelude::*;

use crate::edit_codec::OpView;
use crate::manifest::{CfView, ManifestView, SstMetaView, WalLayout};

verus! {

// ---------------------------------------------------------------------------
// The part of a catalog that preconditions look at
// ---------------------------------------------------------------------------

/// For each column family its tables' levels, and the scalars.
#[verifier::ext_equal]
pub struct Catalog {
    pub cfs: Map<Seq<char>, Map<u64, u32>>,
    pub next_file_id: u64,
    pub global_seq: u64,
    pub wal_layout: WalLayout,
    pub instance_nonce: Option<u64>,
    pub caps: u64,
}

/// Why a step is refused.
pub enum Refusal {
    /// What the step expects of the catalog does not hold.
    Precondition,
    /// The step enables a capability that is not implemented.
    Capability,
}

/// The level of each table; of two with one id the later counts.
pub open spec fn tables_of(ss: Seq<SstMetaView>) -> Map<u64, u32>
    decreases ss.len(),
{
    if ss.len() == 0 {
        Map::empty()
    } else {
        tables_of(ss.drop_last()).insert(ss.last().id, ss.last().level)
    }
}

/// Whether `i` is the first column family called `name`.
pub open spec fn is_first_cf(cfs: Seq<CfView>, name: Seq<char>, i: int) -> bool {
    &&& 0 <= i < cfs.len()
    &&& cfs[i].name == name
    &&& forall|j: int| 0 <= j < i ==> (#[trigger] cfs[j]).name != name
}

/// The first column family called `name`.
pub open spec fn first_cf(cfs: Seq<CfView>, name: Seq<char>) -> Option<int> {
    if exists|i: int| is_first_cf(cfs, name, i) {
        Some(choose|i: int| is_first_cf(cfs, name, i))
    } else {
        None
    }
}

pub proof fn lemma_first_cf(cfs: Seq<CfView>, name: Seq<char>, i: int)
    requires
        is_first_cf(cfs, name, i),
    ensures
        first_cf(cfs, name) == Some(i),
{
    let k = choose|k: int| is_first_cf(cfs, name, k);
    assert(is_first_cf(cfs, name, k));
    if k < i {
        assert(cfs[k].name != name);
    } else if i < k {
        assert(cfs[i].name != name);
    }
}

pub proof fn lemma_no_cf(cfs: Seq<CfView>, name: Seq<char>)
    requires
        forall|j: int| 0 <= j < cfs.len() ==> (#[trigger] cfs[j]).name != name,
    ensures
        first_cf(cfs, name) is None,
{
}

/// The tables of the first column family called `name`.
pub open spec fn cf_tables(cfs: Seq<CfView>, name: Seq<char>) -> Option<Map<u64, u32>> {
    match first_cf(cfs, name) {
        Some(i) => Some(tables_of(cfs[i].sstables)),
        None => None,
    }
}

/// Every column family's tables, built in order: of two with one name the
/// later counts.
pub open spec fn cf_map(cfs: Seq<CfView>) -> Map<Seq<char>, Map<u64, u32>>
    decreases cfs.len(),
{
    if cfs.len() == 0 {
        Map::empty()
    } else {
        cf_map(cfs.drop_last()).insert(cfs.last().name, tables_of(cfs.last().sstables))
    }
}

/// The part of the catalog `m` that preconditions look at.
pub open spec fn catalog_of(m: ManifestView) -> Catalog {
    Catalog {
        cfs: cf_map(m.cfs),
        next_file_id: m.next_file_id,
        global_seq: m.global_seq,
        wal_layout: m.wal_layout,
        instance_nonce: m.instance_nonce,
        caps: m.caps,
    }
}

/// The tables a step on `name` meets; none when there is no such family.
pub open spec fn met_tables(c: Catalog, name: Seq<char>) -> Map<u64, u32> {
    if c.cfs.dom().contains(name) { c.cfs[name] } else { Map::empty() }
}

/// `t` without the tables `ids`, one after another, up to the first that is
/// not there; and whether all were there.
pub open spec fn remove_ids(t: Map<u64, u32>, ids: Seq<u64>) -> (Map<u64, u32>, bool)
    decreases ids.len(),
{
    if ids.len() == 0 {
        (t, true)
    } else if !t.dom().contains(ids[0]) {
        (t, false)
    } else {
        remove_ids(t.remove(ids[0]), ids.skip(1))
    }
}

/// The catalog with the tables of `name` replaced. A family that does not
/// exist has no tables to replace.
pub open spec fn with_tables(c: Catalog, name: Seq<char>, t: Map<u64, u32>) -> Catalog {
    if c.cfs.dom().contains(name) { Catalog { cfs: c.cfs.insert(name, t), ..c } } else { c }
}

/// What a step does to the catalog that the steps after it meet, and whether
/// the step is refused.
pub open spec fn check_op(c: Catalog, op: OpView) -> (Catalog, Option<Refusal>) {
    let no = Some(Refusal::Precondition);
    match op {
        OpView::AddTable { cf, meta } => if !c.cfs.dom().contains(cf) || c.cfs[cf].dom().contains(meta.id) {
            (c, no)
        } else {
            (with_tables(c, cf, c.cfs[cf].insert(meta.id, meta.level)), None)
        },
        OpView::RemoveTable { cf, id, expected_level } => {
            let t = met_tables(c, cf);
            if !t.dom().contains(id) || t[id] != expected_level {
                (c, no)
            } else {
                (with_tables(c, cf, t.remove(id)), None)
            }
        },
        OpView::UpdateTable { cf, id, update } => {
            let t = met_tables(c, cf);
            if crate::edit_codec::update_mask(update) == 0 || !t.dom().contains(id) {
                (c, no)
            } else {
                (
                    match update.level {
                        Some(level) => with_tables(c, cf, t.insert(id, level)),
                        None => c,
                    },
                    None,
                )
            }
        },
        OpView::CreateCf { name, .. } => if c.cfs.dom().contains(name) {
            (c, no)
        } else {
            (Catalog { cfs: c.cfs.insert(name, Map::empty()), ..c }, None)
        },
        OpView::DropCf { name } => if !c.cfs.dom().contains(name) || c.cfs[name] != Map::<u64, u32>::empty() {
            (c, no)
        } else {
            (Catalog { cfs: c.cfs.remove(name), ..c }, None)
        },
        OpView::SetCfConfig { name, .. } => (c, if c.cfs.dom().contains(name) { None } else { no }),
        OpView::SetNextFileId(v) => if v < c.next_file_id {
            (c, no)
        } else {
            (Catalog { next_file_id: v, ..c }, None)
        },
        OpView::SetGlobalSeq(v) => if v < c.global_seq {
            (c, no)
        } else {
            (Catalog { global_seq: v, ..c }, None)
        },
        OpView::SetWalLayout(l) => if l != WalLayout::Unified || c.wal_layout == WalLayout::Unified {
            (c, no)
        } else {
            (Catalog { wal_layout: WalLayout::Unified, ..c }, None)
        },
        OpView::SetNonce(n) => if c.instance_nonce is Some {
            (c, no)
        } else {
            (Catalog { instance_nonce: Some(n), ..c }, None)
        },
        OpView::SetCapability(bits) => if !crate::format::caps_known(bits) {
            (c, Some(Refusal::Capability))
        } else {
            (Catalog { caps: c.caps | bits, ..c }, None)
        },
        OpView::RemoveTables { cf, ids } => {
            let r = remove_ids(met_tables(c, cf), ids);
            (with_tables(c, cf, r.0), if r.1 { None } else { no })
        },
    }
}

/// All steps in order, up to the first that is refused.
pub open spec fn check_ops(c: Catalog, ops: Seq<OpView>) -> (Catalog, Option<Refusal>)
    decreases ops.len(),
{
    if ops.len() == 0 {
        (c, None)
    } else {
        let r = check_op(c, ops[0]);
        if r.1 is Some { r } else { check_ops(r.0, ops.skip(1)) }
    }
}

/// How many steps stand before the first that is refused.
pub open spec fn accepted_ops(c: Catalog, ops: Seq<OpView>) -> nat
    decreases ops.len(),
{
    if ops.len() == 0 {
        0
    } else {
        let r = check_op(c, ops[0]);
        if r.1 is Some { 0 } else { 1 + accepted_ops(r.0, ops.skip(1)) }
    }
}

// ---------------------------------------------------------------------------
// What an edit does
// ---------------------------------------------------------------------------

/// The tables whose id is not among `ids`, in order.
pub open spec fn tables_without(s: Seq<SstMetaView>, ids: Seq<u64>) -> Seq<SstMetaView>
    decreases s.len(),
{
    if s.len() == 0 {
        Seq::empty()
    } else {
        let r = tables_without(s.drop_last(), ids);
        if ids.contains(s.last().id) { r } else { r.push(s.last()) }
    }
}

/// The column families not called `name`, in order.
pub open spec fn cfs_without(s: Seq<CfView>, name: Seq<char>) -> Seq<CfView>
    decreases s.len(),
{
    if s.len() == 0 {
        Seq::empty()
    } else {
        let r = cfs_without(s.drop_last(), name);
        if s.last().name == name { r } else { r.push(s.last()) }
    }
}

/// Whether `i` is the first table with the id `id`.
pub open spec fn is_first_table(ss: Seq<SstMetaView>, id: u64, i: int) -> bool {
    &&& 0 <= i < ss.len()
    &&& ss[i].id == id
    &&& forall|j: int| 0 <= j < i ==> (#[trigger] ss[j]).id != id
}

/// The first table with the id `id`.
pub open spec fn first_table(ss: Seq<SstMetaView>, id: u64) -> Option<int> {
    if exists|i: int| is_first_table(ss, id, i) {
        Some(choose|i: int| is_first_table(ss, id, i))
    } else {
        None
    }
}

pub proof fn lemma_first_table(ss: Seq<SstMetaView>, id: u64, i: int)
    requires
        is_first_table(ss, id, i),
    ensures
        first_table(ss, id) == Some(i),
{
    let k = choose|k: int| is_first_table(ss, id, k);
    assert(is_first_table(ss, id, k));
    if k < i {
        assert(ss[k].id != id);
    } else if i < k {
        assert(ss[i].id != id);
    }
}

/// The tables of a family after one step on them. A new table of level 0
/// comes first, any other last.
pub open spec fn changed_tables(ss: Seq<SstMetaView>, op: OpView) -> Seq<SstMetaView> {
    match op {
        OpView::AddTable { meta, .. } => if meta.level == 0 { seq![meta] + ss } else { ss.push(meta) },
        OpView::RemoveTable { id, .. } => tables_without(ss, seq![id]),
        OpView::UpdateTable { id, update, .. } => match first_table(ss, id) {
            Some(k) => ss.update(k, crate::edit_codec::updated(update, ss[k])),
            None => ss,
        },
        OpView::RemoveTables { ids, .. } => tables_without(ss, ids),
        _ => ss,
    }
}

/// The catalog with family `name` changed: its tables by `op`, its
/// configuration to `config` where one is given.
pub open spec fn with_cf(m: ManifestView, name: Seq<char>, op: OpView, config: Option<Seq<u8>>) -> ManifestView {
    match first_cf(m.cfs, name) {
        Some(i) => ManifestView {
            cfs: m.cfs.update(
                i,
                CfView {
                    sstables: changed_tables(m.cfs[i].sstables, op),
                    config: match config { Some(c) => c, None => m.cfs[i].config },
                    ..m.cfs[i]
                },
            ),
            ..m
        },
        None => m,
    }
}

/// The catalog after one step.
pub open spec fn mutated(m: ManifestView, op: OpView) -> ManifestView {
    match op {
        OpView::AddTable { cf, .. } => with_cf(m, cf, op, None),
        OpView::RemoveTable { cf, .. } => with_cf(m, cf, op, None),
        OpView::UpdateTable { cf, .. } => with_cf(m, cf, op, None),
        OpView::RemoveTables { cf, .. } => with_cf(m, cf, op, None),
        OpView::CreateCf { name, config } => ManifestView {
            cfs: m.cfs.push(CfView { name, config, sstables: Seq::empty(), unified_id: None }),
            ..m
        },
        OpView::DropCf { name } => ManifestView { cfs: cfs_without(m.cfs, name), ..m },
        OpView::SetCfConfig { name, config } => with_cf(m, name, op, Some(config)),
        OpView::SetNextFileId(v) => ManifestView { next_file_id: v, ..m },
        OpView::SetGlobalSeq(v) => ManifestView { global_seq: v, ..m },
        OpView::SetWalLayout(l) => ManifestView { wal_layout: l, ..m },
        OpView::SetNonce(n) => ManifestView { instance_nonce: Some(n), ..m },
        OpView::SetCapability(bits) => ManifestView { caps: m.caps | bits, ..m },
    }
}

/// The catalog after all steps.
pub open spec fn mutated_all(m: ManifestView, ops: Seq<OpView>) -> ManifestView
    decreases ops.len(),
{
    if ops.len() == 0 { m } else { mutated_all(mutated(m, ops[0]), ops.skip(1)) }
}

/// The preconditions of an edit applied directly look a family up by its
/// first occurrence.
pub open spec fn direct_catalog(m: ManifestView) -> Catalog {
    Catalog {
        cfs: Map::new(|n: Seq<char>| cf_tables(m.cfs, n) is Some, |n: Seq<char>| cf_tables(m.cfs, n)->0),
        ..catalog_of(m)
    }
}

// ---------------------------------------------------------------------------
// Validity: no two families of one name, no two tables of one id in a family
// ---------------------------------------------------------------------------

pub open spec fn ids_unique(ss: Seq<SstMetaView>) -> bool {
    forall|i: int, j: int| 0 <= i < j < ss.len() ==> (#[trigger] ss[i]).id != (#[trigger] ss[j]).id
}

pub open spec fn names_unique(cfs: Seq<CfView>) -> bool {
    forall|i: int, j: int| 0 <= i < j < cfs.len() ==> (#[trigger] cfs[i]).name != (#[trigger] cfs[j]).name
}

/// No two families share a name, no two tables of a family share an id.
pub open spec fn well_formed(m: ManifestView) -> bool {
    &&& names_unique(m.cfs)
    &&& forall|i: int| 0 <= i < m.cfs.len() ==> ids_unique((#[trigger] m.cfs[i]).sstables)
}

pub open spec fn has_table(ss: Seq<SstMetaView>, id: u64) -> bool {
    exists|k: int| 0 <= k < ss.len() && (#[trigger] ss[k]).id == id
}

pub open spec fn has_cf(cfs: Seq<CfView>, name: Seq<char>) -> bool {
    exists|k: int| 0 <= k < cfs.len() && (#[trigger] cfs[k]).name == name
}

proof fn lemma_tables_of(ss: Seq<SstMetaView>)
    requires
        ids_unique(ss),
    ensures
        forall|id: u64| tables_of(ss).dom().contains(id) <==> #[trigger] has_table(ss, id),
        forall|k: int| 0 <= k < ss.len() ==> tables_of(ss).dom().contains(ss[k].id) && tables_of(ss)[(#[trigger] ss[k]).id] == ss[k].level,
    decreases ss.len(),
{
    if ss.len() > 0 {
        let d = ss.drop_last();
        assert forall|i: int, j: int| 0 <= i < j < d.len() implies (#[trigger] d[i]).id != (#[trigger] d[j]).id by {
            assert(ss[i].id != ss[j].id);
        }
        lemma_tables_of(d);
        let last = ss.last();
        assert forall|id: u64| tables_of(ss).dom().contains(id) <==> #[trigger] has_table(ss, id) by {
            assert(tables_of(ss).dom().contains(id) <==> (id == last.id || has_table(d, id)));
            if has_table(d, id) {
                let k = choose|k: int| 0 <= k < d.len() && (#[trigger] d[k]).id == id;
                assert(ss[k].id == id);
            }
            if id == last.id {
                assert(ss[ss.len() - 1].id == id);
            }
            if has_table(ss, id) {
                let k = choose|k: int| 0 <= k < ss.len() && (#[trigger] ss[k]).id == id;
                if k < d.len() {
                    assert(d[k].id == id);
                }
            }
        }
        assert forall|k: int| 0 <= k < ss.len() implies tables_of(ss).dom().contains(ss[k].id) && tables_of(ss)[(#[trigger] ss[k]).id]
            == ss[k].level by {
            assert(has_table(ss, ss[k].id));
            if k < d.len() {
                assert(d[k] == ss[k]);
                assert(ss[k].id != ss[ss.len() - 1].id);
            }
        }
    }
}

/// A map of tables is pinned down by which ids it has and their levels.
proof fn lemma_tables_are(ss: Seq<SstMetaView>, t: Map<u64, u32>)
    requires
        ids_unique(ss),
        forall|id: u64| t.dom().contains(id) <==> #[trigger] has_table(ss, id),
        forall|k: int| 0 <= k < ss.len() ==> t[(#[trigger] ss[k]).id] == ss[k].level,
    ensures
        tables_of(ss) == t,
{
    lemma_tables_of(ss);
    assert forall|id: u64| tables_of(ss).dom().contains(id) == t.dom().contains(id) by {
        assert(tables_of(ss).dom().contains(id) == has_table(ss, id));
    }
    assert forall|id: u64| tables_of(ss).dom().contains(id) implies tables_of(ss)[id] == t[id] by {
        assert(has_table(ss, id));
        let k = choose|k: int| 0 <= k < ss.len() && (#[trigger] ss[k]).id == id;
        assert(ss[k].id == id);
    }
    assert(tables_of(ss) =~= t);
}

proof fn lemma_cf_map(cfs: Seq<CfView>)
    requires
        names_unique(cfs),
    ensures
        forall|n: Seq<char>| cf_map(cfs).dom().contains(n) <==> #[trigger] has_cf(cfs, n),
        forall|k: int| 0 <= k < cfs.len() ==> cf_map(cfs).dom().contains(cfs[k].name) && cf_map(cfs)[(#[trigger] cfs[k]).name] == tables_of(cfs[k].sstables),
    decreases cfs.len(),
{
    if cfs.len() > 0 {
        let d = cfs.drop_last();
        assert forall|i: int, j: int| 0 <= i < j < d.len() implies (#[trigger] d[i]).name != (#[trigger] d[j]).name by {
            assert(cfs[i].name != cfs[j].name);
        }
        lemma_cf_map(d);
        let last = cfs.last();
        assert forall|n: Seq<char>| cf_map(cfs).dom().contains(n) <==> #[trigger] has_cf(cfs, n) by {
            assert(cf_map(cfs).dom().contains(n) <==> (n == last.name || has_cf(d, n)));
            if has_cf(d, n) {
                let k = choose|k: int| 0 <= k < d.len() && (#[trigger] d[k]).name == n;
                assert(cfs[k].name == n);
            }
            if n == last.name {
                assert(cfs[cfs.len() - 1].name == n);
            }
            if has_cf(cfs, n) {
                let k = choose|k: int| 0 <= k < cfs.len() && (#[trigger] cfs[k]).name == n;
                if k < d.len() {
                    assert(d[k].name == n);
                }
            }
        }
        assert forall|k: int| 0 <= k < cfs.len() implies cf_map(cfs).dom().contains(cfs[k].name) && cf_map(cfs)[(#[trigger] cfs[k]).name]
            == tables_of(cfs[k].sstables) by {
            assert(has_cf(cfs, cfs[k].name));
            if k < d.len() {
                assert(d[k] == cfs[k]);
                assert(cfs[k].name != cfs[cfs.len() - 1].name);
            }
        }
    }
}

proof fn lemma_cf_map_is(cfs: Seq<CfView>, t: Map<Seq<char>, Map<u64, u32>>)
    requires
        names_unique(cfs),
        forall|n: Seq<char>| t.dom().contains(n) <==> #[trigger] has_cf(cfs, n),
        forall|k: int| 0 <= k < cfs.len() ==> t[(#[trigger] cfs[k]).name] == tables_of(cfs[k].sstables),
    ensures
        cf_map(cfs) == t,
{
    lemma_cf_map(cfs);
    assert forall|n: Seq<char>| cf_map(cfs).dom().contains(n) == t.dom().contains(n) by {
        assert(cf_map(cfs).dom().contains(n) == has_cf(cfs, n));
    }
    assert forall|n: Seq<char>| cf_map(cfs).dom().contains(n) implies cf_map(cfs)[n] == t[n] by {
        assert(has_cf(cfs, n));
        let k = choose|k: int| 0 <= k < cfs.len() && (#[trigger] cfs[k]).name == n;
        assert(cfs[k].name == n);
    }
    assert(cf_map(cfs) =~= t);
}

proof fn lemma_first_of_unique(cfs: Seq<CfView>, i: int)
    requires
        names_unique(cfs),
        0 <= i < cfs.len(),
    ensures
        first_cf(cfs, cfs[i].name) == Some(i),
{
    assert forall|j: int| 0 <= j < i implies (#[trigger] cfs[j]).name != cfs[i].name by {
        assert(cfs[j].name != cfs[i].name);
    }
    lemma_first_cf(cfs, cfs[i].name, i);
}

/// On a well-formed catalog it does not matter whether a family is looked up
/// by its first or its last occurrence: there is only one.
pub proof fn lemma_catalogs_agree(m: ManifestView)
    requires
        well_formed(m),
    ensures
        direct_catalog(m) == catalog_of(m),
{
    let t = direct_catalog(m).cfs;
    assert forall|n: Seq<char>| t.dom().contains(n) <==> #[trigger] has_cf(m.cfs, n) by {
        if has_cf(m.cfs, n) {
            let k = choose|k: int| 0 <= k < m.cfs.len() && (#[trigger] m.cfs[k]).name == n;
            lemma_first_of_unique(m.cfs, k);
        }
        if t.dom().contains(n) {
            let i = first_cf(m.cfs, n)->0;
            assert(is_first_cf(m.cfs, n, i));
            assert(m.cfs[i].name == n);
        }
    }
    assert forall|k: int| 0 <= k < m.cfs.len() implies t[(#[trigger] m.cfs[k]).name] == tables_of(m.cfs[k].sstables) by {
        lemma_first_of_unique(m.cfs, k);
        assert(has_cf(m.cfs, m.cfs[k].name));
    }
    lemma_cf_map_is(m.cfs, t);
}

// ---------------------------------------------------------------------------
// Edits keep the catalog well-formed, and the checked catalog in step
// ---------------------------------------------------------------------------

proof fn lemma_without_tables(ss: Seq<SstMetaView>, ids: Seq<u64>)
    requires
        ids_unique(ss),
    ensures
        ids_unique(tables_without(ss, ids)),
        forall|id: u64| #[trigger] has_table(tables_without(ss, ids), id) <==> has_table(ss, id) && !ids.contains(id),
        forall|k: int| 0 <= k < tables_without(ss, ids).len() ==> exists|j: int| 0 <= j < ss.len() && #[trigger] ss[j]
            == #[trigger] tables_without(ss, ids)[k],
    decreases ss.len(),
{
    let r = tables_without(ss, ids);
    if ss.len() > 0 {
        let d = ss.drop_last();
        let last = ss.last();
        assert forall|i: int, j: int| 0 <= i < j < d.len() implies (#[trigger] d[i]).id != (#[trigger] d[j]).id by {
            assert(ss[i].id != ss[j].id);
        }
        lemma_without_tables(d, ids);
        let rd = tables_without(d, ids);
        assert forall|k: int| 0 <= k < r.len() implies exists|j: int| 0 <= j < ss.len() && #[trigger] ss[j] == #[trigger] r[k] by {
            if k < rd.len() {
                assert(r[k] == rd[k]);
                let j = choose|j: int| 0 <= j < d.len() && #[trigger] d[j] == rd[k];
                assert(ss[j] == r[k]);
            } else {
                assert(ss[ss.len() - 1] == r[k]);
            }
        }
        assert forall|k: int| 0 <= k < rd.len() implies (#[trigger] rd[k]).id != last.id by {
            let j = choose|j: int| 0 <= j < d.len() && #[trigger] d[j] == rd[k];
            assert(ss[j].id != ss[ss.len() - 1].id);
        }
        assert forall|i: int, j: int| 0 <= i < j < r.len() implies (#[trigger] r[i]).id != (#[trigger] r[j]).id by {
            assert(r[i] == rd[i]);
            if j < rd.len() {
                assert(r[j] == rd[j]);
                assert(rd[i].id != rd[j].id);
            }
        }
        assert forall|id: u64| #[trigger] has_table(r, id) <==> has_table(ss, id) && !ids.contains(id) by {
            assert(has_table(rd, id) <==> has_table(d, id) && !ids.contains(id));
            if has_table(r, id) {
                let k = choose|k: int| 0 <= k < r.len() && (#[trigger] r[k]).id == id;
                if k < rd.len() {
                    assert(rd[k].id == id);
                    assert(has_table(d, id));
                    let j = choose|j: int| 0 <= j < d.len() && (#[trigger] d[j]).id == id;
                    assert(ss[j].id == id);
                } else {
                    assert(ss[ss.len() - 1].id == id);
                }
            }
            if has_table(ss, id) && !ids.contains(id) {
                let j = choose|j: int| 0 <= j < ss.len() && (#[trigger] ss[j]).id == id;
                if j < d.len() {
                    assert(d[j].id == id);
                    let k = choose|k: int| 0 <= k < rd.len() && (#[trigger] rd[k]).id == id;
                    assert(r[k].id == id);
                } else {
                    assert(r[r.len() - 1].id == id);
                }
            }
        }
    }
}

proof fn lemma_without_cfs(cfs: Seq<CfView>, name: Seq<char>)
    requires
        names_unique(cfs),
    ensures
        names_unique(cfs_without(cfs, name)),
        forall|n: Seq<char>| #[trigger] has_cf(cfs_without(cfs, name), n) <==> has_cf(cfs, n) && n != name,
        forall|k: int| 0 <= k < cfs_without(cfs, name).len() ==> exists|j: int| 0 <= j < cfs.len() && #[trigger] cfs[j]
            == #[trigger] cfs_without(cfs, name)[k],
    decreases cfs.len(),
{
    let r = cfs_without(cfs, name);
    if cfs.len() > 0 {
        let d = cfs.drop_last();
        let last = cfs.last();
        assert forall|i: int, j: int| 0 <= i < j < d.len() implies (#[trigger] d[i]).name != (#[trigger] d[j]).name by {
            assert(cfs[i].name != cfs[j].name);
        }
        lemma_without_cfs(d, name);
        let rd = cfs_without(d, name);
        assert forall|k: int| 0 <= k < r.len() implies exists|j: int| 0 <= j < cfs.len() && #[trigger] cfs[j] == #[trigger] r[k] by {
            if k < rd.len() {
                assert(r[k] == rd[k]);
                let j = choose|j: int| 0 <= j < d.len() && #[trigger] d[j] == rd[k];
                assert(cfs[j] == r[k]);
            } else {
                assert(cfs[cfs.len() - 1] == r[k]);
            }
        }
        assert forall|k: int| 0 <= k < rd.len() implies (#[trigger] rd[k]).name != last.name by {
            let j = choose|j: int| 0 <= j < d.len() && #[trigger] d[j] == rd[k];
            assert(cfs[j].name != cfs[cfs.len() - 1].name);
        }
        assert forall|i: int, j: int| 0 <= i < j < r.len() implies (#[trigger] r[i]).name != (#[trigger] r[j]).name by {
            assert(r[i] == rd[i]);
            if j < rd.len() {
                assert(r[j] == rd[j]);
                assert(rd[i].name != rd[j].name);
            }
        }
        assert forall|n: Seq<char>| #[trigger] has_cf(r, n) <==> has_cf(cfs, n) && n != name by {
            assert(has_cf(rd, n) <==> has_cf(d, n) && n != name);
            if has_cf(r, n) {
                let k = choose|k: int| 0 <= k < r.len() && (#[trigger] r[k]).name == n;
                if k < rd.len() {
                    assert(rd[k].name == n);
                    let j = choose|j: int| 0 <= j < d.len() && (#[trigger] d[j]).name == n;
                    assert(cfs[j].name == n);
                } else {
                    assert(cfs[cfs.len() - 1].name == n);
                }
            }
            if has_cf(cfs, n) && n != name {
                let j = choose|j: int| 0 <= j < cfs.len() && (#[trigger] cfs[j]).name == n;
                if j < d.len() {
                    assert(d[j].name == n);
                    let k = choose|k: int| 0 <= k < rd.len() && (#[trigger] rd[k]).name == n;
                    assert(r[k].name == n);
                } else {
                    assert(r[r.len() - 1].name == n);
                }
            }
        }
    }
}

proof fn lemma_remove_ids(t: Map<u64, u32>, ids: Seq<u64>)
    requires
        remove_ids(t, ids).1,
    ensures
        forall|id: u64| #[trigger] remove_ids(t, ids).0.dom().contains(id) <==> t.dom().contains(id) && !ids.contains(id),
        forall|id: u64| t.dom().contains(id) && !ids.contains(id) ==> #[trigger] remove_ids(t, ids).0[id] == t[id],
    decreases ids.len(),
{
    if ids.len() > 0 {
        let t1 = t.remove(ids[0]);
        let rest = ids.skip(1);
        lemma_remove_ids(t1, rest);
        assert forall|id: u64| ids.contains(id) <==> id == ids[0] || #[trigger] rest.contains(id) by {
            if ids.contains(id) {
                let k = choose|k: int| 0 <= k < ids.len() && ids[k] == id;
                if k > 0 {
                    assert(rest[k - 1] == id);
                }
            }
            if rest.contains(id) {
                let k = choose|k: int| 0 <= k < rest.len() && rest[k] == id;
                assert(ids[k + 1] == id);
            }
        }
        assert forall|id: u64| #[trigger] remove_ids(t, ids).0.dom().contains(id) <==> t.dom().contains(id) && !ids.contains(id) by {
            assert(remove_ids(t1, rest).0.dom().contains(id) <==> t1.dom().contains(id) && !rest.contains(id));
            assert(rest.contains(id) || !rest.contains(id));
        }
        assert forall|id: u64| t.dom().contains(id) && !ids.contains(id) implies #[trigger] remove_ids(t, ids).0[id] == t[id] by {
            assert(!rest.contains(id));
            assert(t1.dom().contains(id));
            assert(remove_ids(t1, rest).0[id] == t1[id]);
        }
    }
}

/// The tables of a family after an accepted step on them are those that the
/// preconditions of later steps meet.
proof fn lemma_changed_tables(ss: Seq<SstMetaView>, op: OpView, c: Catalog, name: Seq<char>)
    requires
        ids_unique(ss),
        c.cfs.dom().contains(name),
        c.cfs[name] == tables_of(ss),
        check_op(c, op).1 is None,
        match op {
            OpView::AddTable { cf, .. } => cf == name,
            OpView::RemoveTable { cf, .. } => cf == name,
            OpView::UpdateTable { cf, .. } => cf == name,
            OpView::RemoveTables { cf, .. } => cf == name,
            OpView::SetCfConfig { name: n, .. } => n == name,
            _ => false,
        },
    ensures
        ids_unique(changed_tables(ss, op)),
        check_op(c, op).0.cfs =~= c.cfs.insert(name, tables_of(changed_tables(ss, op))),
        check_op(c, op).0 == (Catalog { cfs: check_op(c, op).0.cfs, ..c }),
{
    lemma_tables_of(ss);
    let t = tables_of(ss);
    let r = changed_tables(ss, op);
    assert(c.cfs.insert(name, t) =~= c.cfs);
    match op {
        OpView::AddTable { meta, .. } => {
            assert(!has_table(ss, meta.id));
            let t2 = t.insert(meta.id, meta.level);
            assert forall|i: int, j: int| 0 <= i < j < r.len() implies (#[trigger] r[i]).id != (#[trigger] r[j]).id by {
                if meta.level == 0 {
                    assert(r[j] == ss[j - 1]);
                    if i == 0 {
                        assert(!has_table(ss, meta.id));
                    } else {
                        assert(r[i] == ss[i - 1]);
                        assert(ss[i - 1].id != ss[j - 1].id);
                    }
                } else {
                    assert(r[i] == ss[i]);
                    if j < ss.len() {
                        assert(r[j] == ss[j]);
                        assert(ss[i].id != ss[j].id);
                    }
                }
            }
            assert forall|id: u64| t2.dom().contains(id) <==> #[trigger] has_table(r, id) by {
                assert(t.dom().contains(id) <==> has_table(ss, id));
                if has_table(r, id) {
                    let k = choose|k: int| 0 <= k < r.len() && (#[trigger] r[k]).id == id;
                    if meta.level == 0 {
                        if k > 0 {
                            assert(ss[k - 1].id == id);
                        }
                    } else if k < ss.len() {
                        assert(ss[k].id == id);
                    }
                }
                if has_table(ss, id) {
                    let k = choose|k: int| 0 <= k < ss.len() && (#[trigger] ss[k]).id == id;
                    if meta.level == 0 {
                        assert(r[k + 1].id == id);
                    } else {
                        assert(r[k].id == id);
                    }
                }
                if id == meta.id {
                    if meta.level == 0 {
                        assert(r[0].id == id);
                    } else {
                        assert(r[ss.len() as int].id == id);
                    }
                }
            }
            assert forall|k: int| 0 <= k < r.len() implies t2[(#[trigger] r[k]).id] == r[k].level by {
                if meta.level == 0 {
                    if k > 0 {
                        assert(r[k] == ss[k - 1]);
                        assert(ss[k - 1].id != meta.id);
                    }
                } else if k < ss.len() {
                    assert(r[k] == ss[k]);
                    assert(ss[k].id != meta.id);
                }
            }
            lemma_tables_are(r, t2);
        },
        OpView::RemoveTable { id, .. } => {
            lemma_without_tables(ss, seq![id]);
            let t2 = t.remove(id);
            assert forall|x: u64| t2.dom().contains(x) <==> #[trigger] has_table(r, x) by {
                assert(t.dom().contains(x) <==> has_table(ss, x));
                assert(seq![id].contains(x) <==> x == id) by {
                    assert(seq![id][0] == id);
                }
            }
            assert forall|k: int| 0 <= k < r.len() implies t2[(#[trigger] r[k]).id] == r[k].level by {
                let j = choose|j: int| 0 <= j < ss.len() && #[trigger] ss[j] == r[k];
                assert(has_table(r, r[k].id));
                assert(t[ss[j].id] == ss[j].level);
            }
            lemma_tables_are(r, t2);
        },
        OpView::UpdateTable { id, update, .. } => {
            assert(has_table(ss, id));
            let i = choose|k: int| 0 <= k < ss.len() && (#[trigger] ss[k]).id == id;
            assert forall|j: int| 0 <= j < i implies (#[trigger] ss[j]).id != id by {
                assert(ss[j].id != ss[i].id);
            }
            lemma_first_table(ss, id, i);
            let t2 = match update.level { Some(l) => t.insert(id, l), None => t };
            assert(forall|k: int| 0 <= k < ss.len() ==> (#[trigger] r[k]).id == ss[k].id);
            assert forall|a: int, b: int| 0 <= a < b < r.len() implies (#[trigger] r[a]).id != (#[trigger] r[b]).id by {
                assert(ss[a].id != ss[b].id);
            }
            assert forall|x: u64| t2.dom().contains(x) <==> #[trigger] has_table(r, x) by {
                assert(t.dom().contains(x) <==> has_table(ss, x));
                if has_table(r, x) {
                    let k = choose|k: int| 0 <= k < r.len() && (#[trigger] r[k]).id == x;
                    assert(ss[k].id == x);
                }
                if has_table(ss, x) {
                    let k = choose|k: int| 0 <= k < ss.len() && (#[trigger] ss[k]).id == x;
                    assert(r[k].id == x);
                }
            }
            assert forall|k: int| 0 <= k < r.len() implies t2[(#[trigger] r[k]).id] == r[k].level by {
                assert(t[ss[k].id] == ss[k].level);
                if k != i {
                    assert(r[k] == ss[k]);
                    if k < i {
                        assert(ss[k].id != ss[i].id);
                    } else {
                        assert(ss[i].id != ss[k].id);
                    }
                }
            }
            lemma_tables_are(r, t2);
        },
        OpView::RemoveTables { ids, .. } => {
            lemma_without_tables(ss, ids);
            lemma_remove_ids(t, ids);
            let t2 = remove_ids(t, ids).0;
            assert forall|x: u64| t2.dom().contains(x) <==> #[trigger] has_table(r, x) by {
                assert(t.dom().contains(x) <==> has_table(ss, x));
            }
            assert forall|k: int| 0 <= k < r.len() implies t2[(#[trigger] r[k]).id] == r[k].level by {
                let j = choose|j: int| 0 <= j < ss.len() && #[trigger] ss[j] == r[k];
                assert(has_table(r, r[k].id));
                assert(t[ss[j].id] == ss[j].level);
                assert(t2.dom().contains(r[k].id));
            }
            lemma_tables_are(r, t2);
        },
        _ => {},
    }
}

/// A step on the tables or the configuration of one family.
proof fn lemma_step_on_cf(m: ManifestView, name: Seq<char>, op: OpView, config: Option<Seq<u8>>)
    requires
        well_formed(m),
        check_op(catalog_of(m), op).1 is None,
        has_cf(m.cfs, name),
        match op {
            OpView::AddTable { cf, .. } => cf == name,
            OpView::RemoveTable { cf, .. } => cf == name,
            OpView::UpdateTable { cf, .. } => cf == name,
            OpView::RemoveTables { cf, .. } => cf == name,
            OpView::SetCfConfig { name: n, .. } => n == name,
            _ => false,
        },
    ensures
        well_formed(with_cf(m, name, op, config)),
        catalog_of(with_cf(m, name, op, config)) == check_op(catalog_of(m), op).0,
{
    let c = catalog_of(m);
    lemma_cf_map(m.cfs);
    let i = choose|k: int| 0 <= k < m.cfs.len() && (#[trigger] m.cfs[k]).name == name;
    lemma_first_of_unique(m.cfs, i);
    let ss = m.cfs[i].sstables;
    lemma_changed_tables(ss, op, c, name);
    let m2 = with_cf(m, name, op, config);
    let t2 = c.cfs.insert(name, tables_of(changed_tables(ss, op)));
    assert forall|a: int, b: int| 0 <= a < b < m2.cfs.len() implies (#[trigger] m2.cfs[a]).name != (#[trigger] m2.cfs[b]).name by {
        assert(m.cfs[a].name != m.cfs[b].name);
    }
    assert forall|k: int| 0 <= k < m2.cfs.len() implies ids_unique((#[trigger] m2.cfs[k]).sstables) by {
        assert(ids_unique(m.cfs[k].sstables));
    }
    assert forall|n: Seq<char>| t2.dom().contains(n) <==> #[trigger] has_cf(m2.cfs, n) by {
        assert(c.cfs.dom().contains(n) <==> has_cf(m.cfs, n));
        if has_cf(m.cfs, n) {
            let k = choose|k: int| 0 <= k < m.cfs.len() && (#[trigger] m.cfs[k]).name == n;
            assert(m2.cfs[k].name == n);
        }
        if has_cf(m2.cfs, n) {
            let k = choose|k: int| 0 <= k < m2.cfs.len() && (#[trigger] m2.cfs[k]).name == n;
            assert(m.cfs[k].name == n);
        }
    }
    assert forall|k: int| 0 <= k < m2.cfs.len() implies t2[(#[trigger] m2.cfs[k]).name] == tables_of(m2.cfs[k].sstables) by {
        assert(c.cfs[m.cfs[k].name] == tables_of(m.cfs[k].sstables));
        if k < i {
            assert(m.cfs[k].name != m.cfs[i].name);
        } else if i < k {
            assert(m.cfs[i].name != m.cfs[k].name);
        }
    }
    lemma_cf_map_is(m2.cfs, t2);
}

/// An accepted step keeps the catalog well-formed, and what the preconditions
/// of later steps look at is what the catalog has become.
pub proof fn lemma_step_keeps(m: ManifestView, op: OpView)
    requires
        well_formed(m),
        check_op(catalog_of(m), op).1 is None,
    ensures
        well_formed(mutated(m, op)),
        catalog_of(mutated(m, op)) == check_op(catalog_of(m), op).0,
{
    let c = catalog_of(m);
    let m2 = mutated(m, op);
    lemma_cf_map(m.cfs);
    match op {
        OpView::AddTable { cf, .. } => {
            assert(has_cf(m.cfs, cf));
            lemma_step_on_cf(m, cf, op, None);
        },
        OpView::RemoveTable { cf, .. } => {
            assert(has_cf(m.cfs, cf));
            lemma_step_on_cf(m, cf, op, None);
        },
        OpView::UpdateTable { cf, .. } => {
            assert(has_cf(m.cfs, cf));
            lemma_step_on_cf(m, cf, op, None);
        },
        OpView::RemoveTables { cf, ids } => {
            if has_cf(m.cfs, cf) {
                lemma_step_on_cf(m, cf, op, None);
            } else {
                assert(!c.cfs.dom().contains(cf));
                assert forall|j: int| 0 <= j < m.cfs.len() implies (#[trigger] m.cfs[j]).name != cf by {}
                lemma_no_cf(m.cfs, cf);
            }
        },
        OpView::SetCfConfig { name, config } => {
            assert(has_cf(m.cfs, name));
            lemma_step_on_cf(m, name, op, Some(config));
        },
        OpView::CreateCf { name, config } => {
            let t2 = c.cfs.insert(name, Map::empty());
            assert(!has_cf(m.cfs, name));
            assert forall|a: int, b: int| 0 <= a < b < m2.cfs.len() implies (#[trigger] m2.cfs[a]).name
                != (#[trigger] m2.cfs[b]).name by {
                assert(m2.cfs[a] == m.cfs[a]);
                if b < m.cfs.len() {
                    assert(m2.cfs[b] == m.cfs[b]);
                    assert(m.cfs[a].name != m.cfs[b].name);
                } else {
                    assert(m.cfs[a].name != name);
                }
            }
            assert forall|k: int| 0 <= k < m2.cfs.len() implies ids_unique((#[trigger] m2.cfs[k]).sstables) by {
                if k < m.cfs.len() {
                    assert(m2.cfs[k] == m.cfs[k]);
                    assert(ids_unique(m.cfs[k].sstables));
                }
            }
            assert(m2.cfs.drop_last() =~= m.cfs);
            assert(cf_map(m2.cfs) =~= t2);
        },
        OpView::DropCf { name } => {
            lemma_without_cfs(m.cfs, name);
            let t2 = c.cfs.remove(name);
            assert forall|k: int| 0 <= k < m2.cfs.len() implies ids_unique((#[trigger] m2.cfs[k]).sstables) by {
                let j = choose|j: int| 0 <= j < m.cfs.len() && #[trigger] m.cfs[j] == m2.cfs[k];
                assert(ids_unique(m.cfs[j].sstables));
            }
            assert forall|n: Seq<char>| t2.dom().contains(n) <==> #[trigger] has_cf(m2.cfs, n) by {
                assert(c.cfs.dom().contains(n) <==> has_cf(m.cfs, n));
            }
            assert forall|k: int| 0 <= k < m2.cfs.len() implies t2[(#[trigger] m2.cfs[k]).name] == tables_of(m2.cfs[k].sstables) by {
                let j = choose|j: int| 0 <= j < m.cfs.len() && #[trigger] m.cfs[j] == m2.cfs[k];
                assert(has_cf(m2.cfs, m2.cfs[k].name));
                assert(c.cfs[m.cfs[j].name] == tables_of(m.cfs[j].sstables));
            }
            lemma_cf_map_is(m2.cfs, t2);
        },
        _ => {},
    }
}

/// An accepted edit keeps the catalog well-formed, and what the preconditions
/// of later edits look at is what the catalog has become.
pub proof fn lemma_edit_keeps(m: ManifestView, ops: Seq<OpView>)
    requires
        well_formed(m),
        check_ops(catalog_of(m), ops).1 is None,
    ensures
        well_formed(mutated_all(m, ops)),
        catalog_of(mutated_all(m, ops)) == check_ops(catalog_of(m), ops).0,
    decreases ops.len(),
{
    if ops.len() > 0 {
        lemma_step_keeps(m, ops[0]);
        lemma_edit_keeps(mutated(m, ops[0]), ops.skip(1));
    }
}

// ---------------------------------------------------------------------------
// One edit after another
// ---------------------------------------------------------------------------

/// Edits applied directly, each checked against the catalog it meets, up to
/// the first that is refused.
pub open spec fn applied_each(m: ManifestView, edits: Seq<Seq<OpView>>) -> (ManifestView, Option<Refusal>)
    decreases edits.len(),
{
    if edits.len() == 0 {
        (m, None)
    } else {
        match check_ops(direct_catalog(m), edits[0]).1 {
            Some(x) => (m, Some(x)),
            None => applied_each(mutated_all(m, edits[0]), edits.skip(1)),
        }
    }
}

/// Edits replayed against an index that is carried from one to the next.
pub open spec fn replayed_each(m: ManifestView, c: Catalog, edits: Seq<Seq<OpView>>) -> (ManifestView, Option<Refusal>)
    decreases edits.len(),
{
    if edits.len() == 0 {
        (m, None)
    } else {
        let r = check_ops(c, edits[0]);
        match r.1 {
            Some(x) => (m, Some(x)),
            None => replayed_each(mutated_all(m, edits[0]), r.0, edits.skip(1)),
        }
    }
}

/// A replayer is only a faster way to apply edits in order: from a
/// well-formed catalog it accepts the same edits and ends with the same
/// catalog.
pub proof fn lemma_replay_is_repeated_apply(m: ManifestView, edits: Seq<Seq<OpView>>)
    requires
        well_formed(m),
    ensures
        replayed_each(m, catalog_of(m), edits) == applied_each(m, edits),
    decreases edits.len(),
{
    lemma_catalogs_agree(m);
    if edits.len() > 0 && check_ops(catalog_of(m), edits[0]).1 is None {
        lemma_edit_keeps(m, edits[0]);
        lemma_replay_is_repeated_apply(mutated_all(m, edits[0]), edits.skip(1));
    }
}

// ---------------------------------------------------------------------------
// What an accepted step means
// ---------------------------------------------------------------------------

/// Whether two catalogs differ in their families alone.
pub open spec fn same_numbers(a: ManifestView, b: ManifestView) -> bool {
    &&& a.next_file_id == b.next_file_id
    &&& a.global_seq == b.global_seq
    &&& a.wal_layout == b.wal_layout
    &&& a.instance_nonce == b.instance_nonce
    &&& a.caps == b.caps
    &&& a.generation == b.generation
    &&& a.applied_through == b.applied_through
    &&& a.next_edit_id == b.next_edit_id
}

/// Whether family `i` alone has changed, and of it the tables alone.
pub open spec fn only_tables_of(a: ManifestView, b: ManifestView, i: int) -> bool {
    &&& same_numbers(a, b)
    &&& a.cfs.len() == b.cfs.len()
    &&& 0 <= i < a.cfs.len()
    &&& forall|k: int| 0 <= k < a.cfs.len() && k != i ==> #[trigger] b.cfs[k] == a.cfs[k]
    &&& b.cfs[i].name == a.cfs[i].name
    &&& b.cfs[i].config == a.cfs[i].config
    &&& b.cfs[i].unified_id == a.cfs[i].unified_id
}

/// Where a family that a step names stands.
proof fn lemma_family_of(m: ManifestView, name: Seq<char>) -> (i: int)
    requires
        well_formed(m),
        catalog_of(m).cfs.dom().contains(name),
    ensures
        0 <= i < m.cfs.len(),
        m.cfs[i].name == name,
        first_cf(m.cfs, name) == Some(i),
        catalog_of(m).cfs[name] == tables_of(m.cfs[i].sstables),
        ids_unique(m.cfs[i].sstables),
{
    lemma_cf_map(m.cfs);
    assert(has_cf(m.cfs, name));
    let i = choose|k: int| 0 <= k < m.cfs.len() && (#[trigger] m.cfs[k]).name == name;
    lemma_first_of_unique(m.cfs, i);
    assert(ids_unique(m.cfs[i].sstables));
    i
}

/// Adding a table is accepted where its family exists and holds no table with
/// its number. It is then there as it was given, the first of its family where
/// its level is 0 and else the last; every other table of every family is as
/// it was, in its order.
pub proof fn lemma_add_adds_the_table(m: ManifestView, cf: Seq<char>, meta: SstMetaView)
    requires
        well_formed(m),
    ensures
        check_op(catalog_of(m), OpView::AddTable { cf, meta }).1 is None <==> exists|i: int|
            0 <= i < m.cfs.len() && (#[trigger] m.cfs[i]).name == cf && forall|k: int|
                0 <= k < m.cfs[i].sstables.len() ==> (#[trigger] m.cfs[i].sstables[k]).id != meta.id,
        check_op(catalog_of(m), OpView::AddTable { cf, meta }).1 is None ==> exists|i: int| #[trigger]
            only_tables_of(m, mutated(m, OpView::AddTable { cf, meta }), i) && m.cfs[i].name == cf && (if meta.level == 0 {
                mutated(m, OpView::AddTable { cf, meta }).cfs[i].sstables == seq![meta] + m.cfs[i].sstables
            } else {
                mutated(m, OpView::AddTable { cf, meta }).cfs[i].sstables == m.cfs[i].sstables.push(meta)
            }),
{
    let op = OpView::AddTable { cf, meta };
    lemma_cf_map(m.cfs);
    if catalog_of(m).cfs.dom().contains(cf) {
        let i = lemma_family_of(m, cf);
        let ss = m.cfs[i].sstables;
        lemma_tables_of(ss);
        assert(tables_of(ss).dom().contains(meta.id) <==> has_table(ss, meta.id));
        if check_op(catalog_of(m), op).1 is None {
            assert forall|k: int| 0 <= k < ss.len() implies (#[trigger] ss[k]).id != meta.id by {
                assert(!has_table(ss, meta.id));
            }
            assert(only_tables_of(m, mutated(m, op), i));
        } else {
            let k = choose|k: int| 0 <= k < ss.len() && (#[trigger] ss[k]).id == meta.id;
            assert forall|j: int| 0 <= j < m.cfs.len() && (#[trigger] m.cfs[j]).name == cf implies j == i by {
                if j < i {
                    assert(m.cfs[j].name != m.cfs[i].name);
                } else if i < j {
                    assert(m.cfs[i].name != m.cfs[j].name);
                }
            }
            assert(m.cfs[i].sstables[k].id == meta.id);
        }
    } else {
        assert(!has_cf(m.cfs, cf));
    }
}

proof fn lemma_without_is_filter(ss: Seq<SstMetaView>, ids: Seq<u64>)
    ensures
        tables_without(ss, ids) == ss.filter(|t: SstMetaView| !ids.contains(t.id)),
    decreases ss.len(),
{
    reveal(Seq::filter);
    if ss.len() > 0 {
        lemma_without_is_filter(ss.drop_last(), ids);
    }
}

/// Removing a table is accepted where its family holds it at the level that is
/// expected. It is then gone, and every other table of every family is as it
/// was, in its order.
pub proof fn lemma_remove_removes_the_table(m: ManifestView, cf: Seq<char>, id: u64, expected_level: u32)
    requires
        well_formed(m),
    ensures
        check_op(catalog_of(m), OpView::RemoveTable { cf, id, expected_level }).1 is None <==> exists|i: int, k: int|
            0 <= i < m.cfs.len() && m.cfs[i].name == cf && 0 <= k < m.cfs[i].sstables.len() && (#[trigger] m.cfs[i].sstables[k]).id == id
                && m.cfs[i].sstables[k].level == expected_level,
        check_op(catalog_of(m), OpView::RemoveTable { cf, id, expected_level }).1 is None ==> exists|i: int| #[trigger]
            only_tables_of(m, mutated(m, OpView::RemoveTable { cf, id, expected_level }), i) && m.cfs[i].name == cf && mutated(
                m,
                OpView::RemoveTable { cf, id, expected_level },
            ).cfs[i].sstables == m.cfs[i].sstables.filter(|t: SstMetaView| t.id != id),
{
    let op = OpView::RemoveTable { cf, id, expected_level };
    let c = catalog_of(m);
    lemma_cf_map(m.cfs);
    if c.cfs.dom().contains(cf) {
        let i = lemma_family_of(m, cf);
        let ss = m.cfs[i].sstables;
        lemma_tables_of(ss);
        assert(tables_of(ss).dom().contains(id) <==> has_table(ss, id));
        if check_op(c, op).1 is None {
            let k = choose|k: int| 0 <= k < ss.len() && (#[trigger] ss[k]).id == id;
            assert(tables_of(ss)[ss[k].id] == ss[k].level);
            assert(m.cfs[i].sstables[k].id == id);
            lemma_without_is_filter(ss, seq![id]);
            let f = |t: SstMetaView| !seq![id].contains(t.id);
            let g = |t: SstMetaView| t.id != id;
            assert(f =~= g) by {
                assert forall|t: SstMetaView| #[trigger] f(t) == g(t) by {
                    assert(seq![id][0] == id);
                }
            }
            assert(only_tables_of(m, mutated(m, op), i));
        }
        if exists|a: int, k: int|
            0 <= a < m.cfs.len() && m.cfs[a].name == cf && 0 <= k < m.cfs[a].sstables.len() && (#[trigger] m.cfs[a].sstables[k]).id == id
                && m.cfs[a].sstables[k].level == expected_level {
            let (a, k) = choose|a: int, k: int|
                0 <= a < m.cfs.len() && m.cfs[a].name == cf && 0 <= k < m.cfs[a].sstables.len() && (#[trigger] m.cfs[a].sstables[k]).id == id
                    && m.cfs[a].sstables[k].level == expected_level;
            lemma_first_of_unique(m.cfs, a);
            assert(a == i);
            assert(tables_of(ss)[ss[k].id] == ss[k].level);
        }
    } else {
        assert(!has_cf(m.cfs, cf));
    }
}

/// Where removing several tables is accepted they are gone, and every other
/// table of every family is as it was, in its order.
pub proof fn lemma_remove_removes_the_tables(m: ManifestView, cf: Seq<char>, ids: Seq<u64>)
    requires
        well_formed(m),
        check_op(catalog_of(m), OpView::RemoveTables { cf, ids }).1 is None,
    ensures
        ids.len() > 0 ==> exists|i: int| #[trigger]
            only_tables_of(m, mutated(m, OpView::RemoveTables { cf, ids }), i) && m.cfs[i].name == cf && mutated(
                m,
                OpView::RemoveTables { cf, ids },
            ).cfs[i].sstables == m.cfs[i].sstables.filter(|t: SstMetaView| !ids.contains(t.id)) && forall|n: int|
                0 <= n < ids.len() ==> has_table(m.cfs[i].sstables, #[trigger] ids[n]),
        ids.len() == 0 ==> mutated(m, OpView::RemoveTables { cf, ids }) == m,
        forall|a: int, b: int| 0 <= a < b < ids.len() ==> #[trigger] ids[a] != #[trigger] ids[b],
{
    let op = OpView::RemoveTables { cf, ids };
    let c = catalog_of(m);
    lemma_removed_were_there(met_tables(c, cf), ids);
    if c.cfs.dom().contains(cf) {
        let i = lemma_family_of(m, cf);
        let ss = m.cfs[i].sstables;
        lemma_tables_of(ss);
        lemma_without_is_filter(ss, ids);
        assert forall|n: int| 0 <= n < ids.len() implies has_table(ss, #[trigger] ids[n]) by {
            assert(tables_of(ss).dom().contains(ids[n]));
        }
        if ids.len() == 0 {
            lemma_keeps_all(ss);
            assert(ids =~= Seq::empty());
            assert(mutated(m, op).cfs =~= m.cfs);
        } else {
            assert(only_tables_of(m, mutated(m, op), i));
        }
    } else {
        if ids.len() > 0 {
            assert(met_tables(c, cf).dom().contains(ids[0]));
        }
        lemma_cf_map(m.cfs);
        assert(!has_cf(m.cfs, cf));
        assert forall|j: int| 0 <= j < m.cfs.len() implies (#[trigger] m.cfs[j]).name != cf by {}
        lemma_no_cf(m.cfs, cf);
    }
}

proof fn lemma_keeps_all(ss: Seq<SstMetaView>)
    ensures
        tables_without(ss, Seq::empty()) == ss,
    decreases ss.len(),
{
    if ss.len() > 0 {
        lemma_keeps_all(ss.drop_last());
        assert(ss.drop_last().push(ss.last()) =~= ss);
    }
}

proof fn lemma_removed_were_there(t: Map<u64, u32>, ids: Seq<u64>)
    requires
        remove_ids(t, ids).1,
    ensures
        forall|n: int| 0 <= n < ids.len() ==> t.dom().contains(#[trigger] ids[n]),
        forall|a: int, b: int| 0 <= a < b < ids.len() ==> #[trigger] ids[a] != #[trigger] ids[b],
    decreases ids.len(),
{
    if ids.len() > 0 {
        let rest = ids.skip(1);
        lemma_removed_were_there(t.remove(ids[0]), rest);
        assert forall|n: int| 0 <= n < ids.len() implies t.dom().contains(#[trigger] ids[n]) by {
            if n > 0 {
                assert(rest[n - 1] == ids[n]);
            }
        }
        assert forall|a: int, b: int| 0 <= a < b < ids.len() implies #[trigger] ids[a] != #[trigger] ids[b] by {
            assert(rest[b - 1] == ids[b]);
            if a > 0 {
                assert(rest[a - 1] == ids[a]);
            }
        }
    }
}

/// Whether `b` is `a` with each field that an update names changed to the value
/// that it names, and every other field as it was.
pub open spec fn is_updated(u: crate::edit_codec::UpdateView, a: SstMetaView, b: SstMetaView) -> bool {
    &&& u.level is Some ==> b.level == u.level->0
    &&& u.level is None ==> b.level == a.level
    &&& u.tier is Some ==> b.tier == u.tier->0
    &&& u.tier is None ==> b.tier == a.tier
    &&& u.object is Some ==> b.object == u.object->0
    &&& u.object is None ==> b.object == a.object
    &&& u.partition is Some ==> b.partition == u.partition->0
    &&& u.partition is None ==> b.partition == a.partition
    &&& u.max_entry_time is Some ==> b.max_entry_time == u.max_entry_time->0
    &&& u.max_entry_time is None ==> b.max_entry_time == a.max_entry_time
    &&& u.last_compaction_time is Some ==> b.last_compaction_time == u.last_compaction_time->0
    &&& u.last_compaction_time is None ==> b.last_compaction_time == a.last_compaction_time
    &&& b.id == a.id
    &&& b.num_entries == a.num_entries
    &&& b.num_tombstones == a.num_tombstones
    &&& b.max_seq == a.max_seq
    &&& b.klog_size == a.klog_size
    &&& b.vlog_size == a.vlog_size
    &&& b.min_key == a.min_key
    &&& b.max_key == a.max_key
    &&& b.range_count == a.range_count
    &&& b.range_min_seq == a.range_min_seq
    &&& b.range_max_seq == a.range_max_seq
    &&& b.range_min_key == a.range_min_key
    &&& b.range_max_key == a.range_max_key
}

/// Whether an update names some field.
pub open spec fn names_a_field(u: crate::edit_codec::UpdateView) -> bool {
    u.level is Some || u.tier is Some || u.object is Some || u.partition is Some || u.max_entry_time is Some || u.last_compaction_time is Some
}

/// An update is accepted where it names a field and the family holds the
/// table. Each field that it names then has the value that it names, and every
/// other field of that table and every other table is as it was, in its place.
pub proof fn lemma_update_changes_what_it_names(m: ManifestView, cf: Seq<char>, id: u64, update: crate::edit_codec::UpdateView)
    requires
        well_formed(m),
    ensures
        check_op(catalog_of(m), OpView::UpdateTable { cf, id, update }).1 is None <==> names_a_field(update) && exists|i: int, k: int|
            0 <= i < m.cfs.len() && m.cfs[i].name == cf && 0 <= k < m.cfs[i].sstables.len() && (#[trigger] m.cfs[i].sstables[k]).id == id,
        check_op(catalog_of(m), OpView::UpdateTable { cf, id, update }).1 is None ==> exists|i: int, k: int|
            #![trigger m.cfs[i].sstables[k]]
            {
                let n = mutated(m, OpView::UpdateTable { cf, id, update });
                &&& only_tables_of(m, n, i)
                &&& m.cfs[i].name == cf
                &&& 0 <= k < m.cfs[i].sstables.len()
                &&& m.cfs[i].sstables[k].id == id
                &&& n.cfs[i].sstables.len() == m.cfs[i].sstables.len()
                &&& is_updated(update, m.cfs[i].sstables[k], n.cfs[i].sstables[k])
                &&& forall|j: int| 0 <= j < m.cfs[i].sstables.len() && j != k ==> #[trigger] n.cfs[i].sstables[j] == m.cfs[i].sstables[j]
            },
{
    let op = OpView::UpdateTable { cf, id, update };
    let c = catalog_of(m);
    lemma_cf_map(m.cfs);
    if c.cfs.dom().contains(cf) {
        let i = lemma_family_of(m, cf);
        let ss = m.cfs[i].sstables;
        lemma_tables_of(ss);
        assert(tables_of(ss).dom().contains(id) <==> has_table(ss, id));
        if check_op(c, op).1 is None {
            let k = choose|k: int| 0 <= k < ss.len() && (#[trigger] ss[k]).id == id;
            assert forall|j: int| 0 <= j < k implies (#[trigger] ss[j]).id != id by {
                assert(ss[j].id != ss[k].id);
            }
            lemma_first_table(ss, id, k);
            let n = mutated(m, op);
            assert(only_tables_of(m, n, i));
            assert(is_updated(update, m.cfs[i].sstables[k], n.cfs[i].sstables[k]));
        }
        if exists|a: int, k: int|
            0 <= a < m.cfs.len() && m.cfs[a].name == cf && 0 <= k < m.cfs[a].sstables.len() && (#[trigger] m.cfs[a].sstables[k]).id == id {
            let (a, k) = choose|a: int, k: int|
                0 <= a < m.cfs.len() && m.cfs[a].name == cf && 0 <= k < m.cfs[a].sstables.len() && (#[trigger] m.cfs[a].sstables[k]).id == id;
            lemma_first_of_unique(m.cfs, a);
            assert(a == i);
            assert(ss[k].id == id);
            assert(has_table(ss, id));
        }
    } else {
        assert(!has_cf(m.cfs, cf));
    }
}

/// A family is created where none has its name: behind the others, with no
/// table and with the configuration that is given. It is dropped where it has
/// no table: then no family has its name, and every other is as it was.
pub proof fn lemma_families_come_and_go(m: ManifestView, name: Seq<char>, config: Seq<u8>)
    requires
        well_formed(m),
    ensures
        check_op(catalog_of(m), OpView::CreateCf { name, config }).1 is None <==> forall|i: int|
            0 <= i < m.cfs.len() ==> (#[trigger] m.cfs[i]).name != name,
        ({
            let n = mutated(m, OpView::CreateCf { name, config });
            &&& same_numbers(m, n)
            &&& n.cfs.len() == m.cfs.len() + 1
            &&& n.cfs.take(m.cfs.len() as int) == m.cfs
            &&& n.cfs.last().name == name
            &&& n.cfs.last().config == config
            &&& n.cfs.last().sstables.len() == 0
            &&& n.cfs.last().unified_id is None
        }),
        check_op(catalog_of(m), OpView::DropCf { name }).1 is None <==> exists|i: int|
            0 <= i < m.cfs.len() && (#[trigger] m.cfs[i]).name == name && m.cfs[i].sstables.len() == 0,
        ({
            let n = mutated(m, OpView::DropCf { name });
            same_numbers(m, n) && n.cfs == m.cfs.filter(|f: CfView| f.name != name)
        }),
{
    lemma_cf_map(m.cfs);
    lemma_cfs_without_is_filter(m.cfs, name);
    let n = mutated(m, OpView::CreateCf { name, config });
    assert(n.cfs.take(m.cfs.len() as int) =~= m.cfs);
    let c = catalog_of(m);
    assert(c.cfs.dom().contains(name) <==> has_cf(m.cfs, name));
    if c.cfs.dom().contains(name) {
        let i = lemma_family_of(m, name);
        let ss = m.cfs[i].sstables;
        lemma_tables_of(ss);
        if ss.len() > 0 {
            assert(tables_of(ss).dom().contains(ss[0].id));
        } else {
            assert(tables_of(ss) =~= Map::empty());
        }
        if exists|a: int| 0 <= a < m.cfs.len() && (#[trigger] m.cfs[a]).name == name && m.cfs[a].sstables.len() == 0 {
            let a = choose|a: int| 0 <= a < m.cfs.len() && (#[trigger] m.cfs[a]).name == name && m.cfs[a].sstables.len() == 0;
            lemma_first_of_unique(m.cfs, a);
            assert(a == i);
        }
    }
}

proof fn lemma_cfs_without_is_filter(s: Seq<CfView>, name: Seq<char>)
    ensures
        cfs_without(s, name) == s.filter(|f: CfView| f.name != name),
    decreases s.len(),
{
    reveal(Seq::filter);
    if s.len() > 0 {
        lemma_cfs_without_is_filter(s.drop_last(), name);
    }
}

/// A family is configured where it exists: it then has the configuration that
/// is given, and nothing else has changed.
pub proof fn lemma_configuring_changes_the_configuration(m: ManifestView, name: Seq<char>, config: Seq<u8>)
    requires
        well_formed(m),
    ensures
        check_op(catalog_of(m), OpView::SetCfConfig { name, config }).1 is None <==> exists|i: int|
            0 <= i < m.cfs.len() && (#[trigger] m.cfs[i]).name == name,
        check_op(catalog_of(m), OpView::SetCfConfig { name, config }).1 is None ==> exists|i: int|
            #![trigger m.cfs[i]]
            {
                let n = mutated(m, OpView::SetCfConfig { name, config });
                &&& same_numbers(m, n)
                &&& 0 <= i < m.cfs.len() == n.cfs.len()
                &&& m.cfs[i].name == name
                &&& n.cfs[i].name == name
                &&& n.cfs[i].config == config
                &&& n.cfs[i].sstables == m.cfs[i].sstables
                &&& n.cfs[i].unified_id == m.cfs[i].unified_id
                &&& forall|k: int| 0 <= k < m.cfs.len() && k != i ==> #[trigger] n.cfs[k] == m.cfs[k]
            },
{
    lemma_cf_map(m.cfs);
    assert(catalog_of(m).cfs.dom().contains(name) <==> has_cf(m.cfs, name));
    if catalog_of(m).cfs.dom().contains(name) {
        let i = lemma_family_of(m, name);
        assert(m.cfs[i].name == name);
    }
}

/// The numbers of a catalog rise and never fall, the layout of the log changes
/// once and to one log for all, the nonce is given once, and capabilities are
/// gained and never lost. Each step changes the one number that it names.
pub proof fn lemma_numbers_never_go_back(m: ManifestView, v: u64, l: WalLayout)
    ensures
        check_op(catalog_of(m), OpView::SetNextFileId(v)).1 is None <==> m.next_file_id <= v,
        ({
            let n = mutated(m, OpView::SetNextFileId(v));
            n.next_file_id == v && n.cfs == m.cfs && same_numbers(ManifestView { next_file_id: m.next_file_id, ..n }, m)
        }),
        check_op(catalog_of(m), OpView::SetGlobalSeq(v)).1 is None <==> m.global_seq <= v,
        ({
            let n = mutated(m, OpView::SetGlobalSeq(v));
            n.global_seq == v && n.cfs == m.cfs && same_numbers(ManifestView { global_seq: m.global_seq, ..n }, m)
        }),
        check_op(catalog_of(m), OpView::SetWalLayout(l)).1 is None <==> l is Unified && m.wal_layout is PerColumnFamily,
        ({
            let n = mutated(m, OpView::SetWalLayout(l));
            n.wal_layout == l && n.cfs == m.cfs && same_numbers(ManifestView { wal_layout: m.wal_layout, ..n }, m)
        }),
        check_op(catalog_of(m), OpView::SetNonce(v)).1 is None <==> m.instance_nonce is None,
        ({
            let n = mutated(m, OpView::SetNonce(v));
            n.instance_nonce == Some(v) && n.cfs == m.cfs && same_numbers(ManifestView { instance_nonce: m.instance_nonce, ..n }, m)
        }),
        ({
            let n = mutated(m, OpView::SetCapability(v));
            &&& n.caps & m.caps == m.caps
            &&& n.caps & v == v
            &&& n.caps & !(m.caps | v) == 0
            &&& n.cfs == m.cfs
            &&& same_numbers(ManifestView { caps: m.caps, ..n }, m)
        }),
{
    let a = m.caps;
    assert((a | v) & a == a && (a | v) & v == v && (a | v) & !(a | v) == 0) by (bit_vector);
}

/// An edit in two halves is the two halves, one after the other: it is accepted
/// where the first is and then the second is, and leaves what they leave.
pub proof fn lemma_edits_join(m: ManifestView, c: Catalog, a: Seq<OpView>, b: Seq<OpView>)
    ensures
        mutated_all(m, a + b) == mutated_all(mutated_all(m, a), b),
        check_ops(c, a + b) == (if check_ops(c, a).1 is Some { check_ops(c, a) } else { check_ops(check_ops(c, a).0, b) }),
        accepted_ops(c, a + b) == (if check_ops(c, a).1 is Some {
            accepted_ops(c, a)
        } else {
            a.len() + accepted_ops(check_ops(c, a).0, b)
        }),
    decreases a.len(),
{
    if a.len() == 0 {
        assert(a + b =~= b);
    } else {
        assert((a + b).skip(1) =~= a.skip(1) + b);
        assert((a + b)[0] == a[0]);
        lemma_edits_join(mutated(m, a[0]), check_op(c, a[0]).0, a.skip(1), b);
    }
}

/// An edit of one step does what the step does, and one of no step nothing.
pub proof fn lemma_edit_is_its_steps(m: ManifestView, c: Catalog, op: OpView)
    ensures
        mutated_all(m, seq![op]) == mutated(m, op),
        check_ops(c, seq![op]) == check_op(c, op),
        mutated_all(m, Seq::empty()) == m,
        check_ops(c, Seq::empty()) == (c, None::<Refusal>),
{
    assert(seq![op].skip(1) =~= Seq::empty());
    reveal_with_fuel(mutated_all, 2);
    reveal_with_fuel(check_ops, 2);
}

/// Removing several tables is accepted where the family holds each of them and
/// none is named twice.
pub proof fn lemma_when_tables_can_be_removed(m: ManifestView, cf: Seq<char>, ids: Seq<u64>, i: int)
    requires
        well_formed(m),
        0 <= i < m.cfs.len(),
        m.cfs[i].name == cf,
    ensures
        check_op(catalog_of(m), OpView::RemoveTables { cf, ids }).1 is None <==> {
            &&& forall|n: int|
                0 <= n < ids.len() ==> exists|k: int|
                    0 <= k < m.cfs[i].sstables.len() && (#[trigger] m.cfs[i].sstables[k]).id == #[trigger] ids[n]
            &&& forall|a: int, b: int| 0 <= a < b < ids.len() ==> #[trigger] ids[a] != #[trigger] ids[b]
        },
{
    let c = catalog_of(m);
    let ss = m.cfs[i].sstables;
    lemma_cf_map(m.cfs);
    assert(has_cf(m.cfs, cf));
    let j = lemma_family_of(m, cf);
    lemma_first_of_unique(m.cfs, i);
    assert(i == j);
    lemma_tables_of(ss);
    let t = tables_of(ss);
    assert(met_tables(c, cf) == t);
    if remove_ids(t, ids).1 {
        lemma_removed_were_there(t, ids);
        assert forall|n: int| 0 <= n < ids.len() implies exists|k: int|
            0 <= k < ss.len() && (#[trigger] ss[k]).id == #[trigger] ids[n] by {
            assert(t.dom().contains(ids[n]));
            assert(has_table(ss, ids[n]));
        }
    }
    if (forall|n: int| 0 <= n < ids.len() ==> exists|k: int| 0 <= k < ss.len() && (#[trigger] ss[k]).id == #[trigger] ids[n]) && (forall|
        a: int,
        b: int,
    |
        0 <= a < b < ids.len() ==> #[trigger] ids[a] != #[trigger] ids[b]) {
        assert forall|n: int| 0 <= n < ids.len() implies t.dom().contains(#[trigger] ids[n]) by {
            assert(has_table(ss, ids[n]));
        }
        lemma_all_can_be_removed(t, ids);
    }
}

proof fn lemma_all_can_be_removed(t: Map<u64, u32>, ids: Seq<u64>)
    requires
        forall|n: int| 0 <= n < ids.len() ==> t.dom().contains(#[trigger] ids[n]),
        forall|a: int, b: int| 0 <= a < b < ids.len() ==> #[trigger] ids[a] != #[trigger] ids[b],
    ensures
        remove_ids(t, ids).1,
    decreases ids.len(),
{
    if ids.len() > 0 {
        let rest = ids.skip(1);
        assert forall|n: int| 0 <= n < rest.len() implies t.remove(ids[0]).dom().contains(#[trigger] rest[n]) by {
            assert(rest[n] == ids[n + 1]);
            assert(ids[0] != ids[n + 1]);
        }
        assert forall|a: int, b: int| 0 <= a < b < rest.len() implies #[trigger] rest[a] != #[trigger] rest[b] by {
            assert(ids[a + 1] != ids[b + 1]);
        }
        lemma_all_can_be_removed(t.remove(ids[0]), rest);
    }
}

/// Capabilities that are not known are refused as such; every other refusal is
/// of a step whose precondition does not hold.
pub proof fn lemma_why_a_step_is_refused(c: Catalog, op: OpView, bits: u64)
    ensures
        check_op(c, OpView::SetCapability(bits)).1 is None <==> bits < 64,
        check_op(c, op).1 matches Some(Refusal::Capability) ==> op is SetCapability,
        op is SetCapability ==> !(check_op(c, op).1 matches Some(Refusal::Precondition)),
{
    crate::format::lemma_which_capabilities_are_known(bits, 0);
}

/// An edit is refused by its first step that is refused, and the steps before
/// that one are all accepted.
pub proof fn lemma_first_refused_step_decides(c: Catalog, ops: Seq<OpView>)
    ensures
        check_ops(c, ops).1 is None <==> accepted_ops(c, ops) == ops.len(),
        check_ops(c, ops).1 is Some ==> {
            let n = accepted_ops(c, ops) as int;
            &&& n < ops.len()
            &&& check_ops(c, ops.take(n)).1 is None
            &&& check_op(check_ops(c, ops.take(n)).0, ops[n]).1 == check_ops(c, ops).1
        },
    decreases ops.len(),
{
    if ops.len() > 0 {
        let r = check_op(c, ops[0]);
        if r.1 is None {
            lemma_first_refused_step_decides(r.0, ops.skip(1));
            let n = accepted_ops(c, ops) as int;
            if check_ops(c, ops).1 is Some {
                assert(ops.take(n).skip(1) =~= ops.skip(1).take(n - 1));
                assert(ops.take(n)[0] == ops[0]);
                assert(ops.skip(1)[n - 1] == ops[n]);
            }
        } else {
            assert(ops.take(0) =~= Seq::empty());
        }
    }
}

} // verus!
