//! Opening a table step by step, over blocks that someone else reads: the
//! auxiliary block, the filter, then the index, as far as the footer names
//! them.

use vstd::prelude::*;

use crate::comparator::Comparator;
use crate::error::OndaError;
use crate::range_tombstone::Fragment;
use crate::sst_format::{BlockHandle, TableFooter};
use crate::sst_index::{decode_index, IndexEntry};
use crate::sst_reader::{load_fragments, Reader};
use crate::sst_tree::TreeLoad;

verus! {

/// The block that is to be read next.
#[derive(Debug, Clone, Copy, PartialEq, Eq, Structural)]
pub enum OpenStep {
    /// The auxiliary block.
    Aux(BlockHandle),
    /// The filter.
    Bloom(BlockHandle),
    /// The index, or a node of it.
    Index(BlockHandle),
    /// None: the table can be opened.
    Done,
}

/// How far a table has been opened.
#[derive(Debug, Clone, Copy, PartialEq, Eq, Structural)]
pub enum OpenStage {
    Aux,
    Bloom,
    Index,
    Done,
}

/// Where opening a table with this footer starts.
pub open spec fn first_stage(f: TableFooter) -> OpenStage {
    if f.aux.length > 0 { OpenStage::Aux } else { stage_after_aux(f) }
}

pub open spec fn stage_after_aux(f: TableFooter) -> OpenStage {
    if f.bloom is Some { OpenStage::Bloom } else { OpenStage::Index }
}

/// A table that is being opened.
#[derive(Debug)]
pub struct TableOpen<C: Comparator> {
    footer: TableFooter,
    ord: C,
    stage: OpenStage,
    fragments: Vec<Fragment>,
    tree: TreeLoad,
    min_key: Vec<u8>,
    index: Vec<IndexEntry>,
}

impl<C: Comparator> TableOpen<C> {
    pub closed spec fn footer_of(self) -> TableFooter {
        self.footer
    }

    pub closed spec fn order(self) -> C {
        self.ord
    }

    pub closed spec fn stage_of(self) -> OpenStage {
        self.stage
    }

    /// The fragments that were read.
    pub closed spec fn fragments_view(self) -> Seq<crate::range_tombstone::FragmentView> {
        crate::range_tombstone::fragment_views(self.fragments@)
    }

    /// How far an index that is a tree was read.
    pub closed spec fn tree_view(self) -> crate::sst_tree::LoadView {
        self.tree@
    }

    /// The smallest key and the entries of the index, as far as they were read.
    pub closed spec fn index_view(self) -> (Seq<u8>, Seq<crate::sst_index::IndexView>) {
        if self.footer.btree { (self.tree@.min_key, self.tree@.index) } else { (self.min_key@, crate::sst_index::index_views(self.index@)) }
    }

    pub open spec fn inv(self) -> bool {
        &&& crate::range_tombstone::fragments_apart(self.order(), self.fragments_view())
        &&& self.stage_of() is Bloom ==> self.footer_of().bloom is Some
        &&& self.footer_of().btree && !(self.stage_of() is Done) ==> self.tree_view().todo.len() > 0
    }

    /// Begin to open a table with this footer.
    pub fn new(footer: TableFooter, ord: C) -> (r: TableOpen<C>)
        ensures
            r.inv(),
            r.footer_of() == footer,
            r.order() == ord,
            r.stage_of() == first_stage(footer),
            r.fragments_view() == Seq::<crate::range_tombstone::FragmentView>::empty(),
            r.tree_view() == (crate::sst_tree::LoadView { todo: seq![footer.index], rooted: false, min_key: Seq::empty(), index: Seq::empty() }),
    {
        let stage = if footer.aux.length > 0 {
            OpenStage::Aux
        } else if footer.bloom.is_some() {
            OpenStage::Bloom
        } else {
            OpenStage::Index
        };
        let tree = TreeLoad::new(footer.index);
        let r = TableOpen { footer, ord, stage, fragments: Vec::new(), tree, min_key: Vec::new(), index: Vec::new() };
        assert(r.fragments_view() =~= Seq::empty());
        r
    }

    /// The block that is to be read next. A table without an auxiliary block or
    /// a filter is asked for none, and an index that is a tree node by node.
    pub fn wanted(&self) -> (r: OpenStep)
        requires
            self.inv(),
        ensures
            r == (match self.stage_of() {
                OpenStage::Aux => OpenStep::Aux(self.footer_of().aux),
                OpenStage::Bloom => OpenStep::Bloom(self.footer_of().bloom->0),
                OpenStage::Index => OpenStep::Index(if self.footer_of().btree { self.tree_view().todo[0] } else { self.footer_of().index }),
                OpenStage::Done => OpenStep::Done,
            }),
    {
        match self.stage {
            OpenStage::Aux => OpenStep::Aux(self.footer.aux),
            OpenStage::Bloom => match self.footer.bloom {
                Some(h) => OpenStep::Bloom(h),
                None => OpenStep::Done,
            },
            OpenStage::Index => {
                if self.footer.btree {
                    match self.tree.wanted() {
                        Some(h) => OpenStep::Index(h),
                        None => OpenStep::Done,
                    }
                } else {
                    OpenStep::Index(self.footer.index)
                }
            },
            OpenStage::Done => OpenStep::Done,
        }
    }

    /// Take in the block that was wanted. One that cannot be read leaves it as
    /// it was. What a filter holds is not looked at.
    pub fn feed(&mut self, block: &[u8]) -> (r: Result<(), OndaError>)
        requires
            old(self).inv(),
            !(old(self).stage_of() is Done),
        ensures
            final(self).inv(),
            final(self).footer_of() == old(self).footer_of(),
            final(self).order() == old(self).order(),
            r is Err ==> final(self).stage_of() == old(self).stage_of() && final(self).index_view() == old(self).index_view(),
            !(old(self).stage_of() is Aux) || r is Err ==> final(self).fragments_view() == old(self).fragments_view(),
            !(old(self).stage_of() is Index) || r is Err ==> final(self).tree_view() == old(self).tree_view(),
            match old(self).stage_of() {
                OpenStage::Aux => match crate::sst_reader::parse_table_fragments(old(self).order(), block@) {
                    Err(f) => r is Err && crate::format::reports(r->Err_0, f),
                    Ok(fs) => r is Ok && final(self).fragments_view() == fs && final(self).stage_of() == stage_after_aux(old(self).footer_of()),
                },
                OpenStage::Bloom => r is Ok && final(self).stage_of() is Index,
                OpenStage::Index => if old(self).footer_of().btree {
                    match crate::sst_tree::parse_node(block@, !old(self).tree_view().rooted) {
                        None => r is Err && r->Err_0 is Corruption,
                        Some((min, n)) => {
                            &&& r is Ok
                            &&& final(self).tree_view() == crate::sst_tree::fed(old(self).tree_view(), min, n)
                            &&& final(self).index_view() == (final(self).tree_view().min_key, final(self).tree_view().index)
                            &&& final(self).stage_of() == (if final(self).tree_view().todo.len() == 0 { OpenStage::Done } else { OpenStage::Index })
                        },
                    }
                } else {
                    match crate::sst_index::parse_index(block@) {
                        None => r is Err && r->Err_0 is Corruption,
                        Some(found) => r is Ok && final(self).index_view() == found && final(self).stage_of() is Done,
                    }
                },
                OpenStage::Done => true,
            },
    {
        match self.stage {
            OpenStage::Aux => {
                let fragments = load_fragments(&self.ord, block)?;
                self.fragments = fragments;
                self.stage = if self.footer.bloom.is_some() { OpenStage::Bloom } else { OpenStage::Index };
            },
            OpenStage::Bloom => {
                self.stage = OpenStage::Index;
            },
            OpenStage::Index => {
                if self.footer.btree {
                    self.tree.feed(block)?;
                    if self.tree.wanted().is_none() {
                        self.stage = OpenStage::Done;
                    }
                } else {
                    let (min_key, index) = decode_index(block)?;
                    self.min_key = min_key;
                    self.index = index;
                    self.stage = OpenStage::Done;
                }
            },
            OpenStage::Done => {},
        }
        Ok(())
    }

    /// The table, once every block was taken in.
    pub fn finish(self, klog_path: &str, file_id: u64) -> (r: Reader<C>)
        requires
            self.inv(),
            self.stage_of() is Done,
        ensures
            r.inv(),
            r.order() == self.order(),
            r@ == crate::sst_reader::opened(
                klog_path@,
                file_id,
                self.footer_of(),
                self.index_view().0,
                self.index_view().1,
                self.fragments_view(),
                r@.codec.bytewise,
            ),
    {
        let (min_key, index) = if self.footer.btree { self.tree.finish() } else { (self.min_key, self.index) };
        Reader::assemble(klog_path, file_id, self.ord, &self.footer, min_key, index, self.fragments)
    }
}

/// A table is opened by its auxiliary block where it has one, then its filter
/// where it has one, and then its index, which it always has.
pub proof fn lemma_table_opens_in_order(f: TableFooter)
    ensures
        first_stage(f) is Aux <==> f.aux.length > 0,
        first_stage(f) is Bloom <==> f.aux.length == 0 && f.bloom is Some,
        first_stage(f) is Index <==> f.aux.length == 0 && f.bloom is None,
        stage_after_aux(f) is Bloom <==> f.bloom is Some,
        stage_after_aux(f) is Index <==> f.bloom is None,
{
}

} // verus!
