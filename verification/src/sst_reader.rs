//! Reading a table: what is loaded when it is opened, and which block and
//! frame a read needs.

use vstd::prelude::*;
use vstd::string::StringExecFns;

use crate::comparator::Comparator;
use crate::encoding::checksum;
use crate::error::OndaError;
use crate::format::Fault;
use crate::range_tombstone::{covering_seq_in, decode_fragments, Fragment};
use crate::sst_aux::decode_aux_sections;
use crate::sst_block::{Codec, PointHit};
use crate::sst_format::{decode_vlog_frame, vlog_path_for, BlockHandle, TableFooter, VLOG_FRAME_HDR_LEN};
use crate::sst_index::IndexEntry;

verus! {

// ---------------------------------------------------------------------------
// Fragments
// ---------------------------------------------------------------------------

/// The fragments of an auxiliary block: those of its last section, where every
/// section can be read and they stand one behind the other.
pub open spec fn parse_table_fragments<C: Comparator>(ord: C, aux: Seq<u8>) -> Result<Seq<crate::range_tombstone::FragmentView>, Fault> {
    match crate::sst_aux::parse_aux(aux) {
        Err(f) => Err(f),
        Ok(v) => if exists|i: int| 0 <= i < v.len() && crate::range_tombstone::parse_section((#[trigger] v[i]).1) is None {
            Err(Fault::Corrupt)
        } else {
            let fs = if v.len() == 0 { Seq::empty() } else { crate::range_tombstone::parse_section(v.last().1)->0 };
            if crate::range_tombstone::fragments_apart(ord, fs) { Ok(fs) } else { Err(Fault::Corrupt) }
        },
    }
}

fn corrupt(what: &str) -> (r: OndaError)
    ensures
        r is Corruption,
{
    OndaError::Corruption(crate::text::join3("sst: ", what, ""))
}

proof fn lemma_section_seqs(s: Seq<u8>, n: nat)
    ensures
        crate::range_tombstone::parse_fragments(s, n) matches Some((fs, _)) ==> forall|i: int|
            0 <= i < fs.len() ==> (#[trigger] fs[i]).seqs.len() > 0 && crate::range_tombstone::descending(fs[i].seqs),
    decreases n,
{
    if n > 0 {
        if let Some((f, rest)) = crate::range_tombstone::parse_fragment(s) {
            lemma_section_seqs(rest, (n - 1) as nat);
            lemma_ids_len(s);
            if let Some((more, _)) = crate::range_tombstone::parse_fragments(rest, (n - 1) as nat) {
                let fs = seq![f] + more;
                assert forall|i: int| 0 <= i < fs.len() implies (#[trigger] fs[i]).seqs.len() > 0 && crate::range_tombstone::descending(
                    fs[i].seqs,
                ) by {
                    if i > 0 {
                        assert(fs[i] == more[i - 1]);
                    }
                }
            }
        }
    }
}

/// A fragment that was read has a sequence.
proof fn lemma_ids_len(s: Seq<u8>)
    ensures
        crate::range_tombstone::parse_fragment(s) matches Some((f, _)) ==> f.seqs.len() > 0,
{
    if let Some((start, s)) = crate::edit_codec::parse_bytes(s) {
        if let Some((end, s)) = crate::edit_codec::parse_bytes(s) {
            if let Some((n, s)) = crate::encoding::parse_uvarint(s) {
                lemma_ids_count(s, n as nat);
            }
        }
    }
}

proof fn lemma_ids_count(s: Seq<u8>, n: nat)
    ensures
        crate::edit_codec::parse_ids(s, n) matches Some((v, _)) ==> v.len() == n,
    decreases n,
{
    if n > 0 {
        if let Some((x, rest)) = crate::encoding::parse_uvarint(s) {
            lemma_ids_count(rest, (n - 1) as nat);
        }
    }
}

/// Whether fragments stand one behind the other, and each but the first ends
/// after it starts.
fn in_order<C: Comparator>(ord: &C, frags: &Vec<Fragment>) -> (r: bool)
    requires
        forall|i: int|
            0 <= i < frags@.len() ==> (#[trigger] frags@[i]).seqs@.len() > 0 && crate::range_tombstone::descending(frags@[i].seqs@),
    ensures
        r == crate::range_tombstone::fragments_apart(*ord, crate::range_tombstone::fragment_views(frags@)),
{
    let ghost fs = crate::range_tombstone::fragment_views(frags@);
    proof {
        crate::comparator::lemma_order(*ord);
        assert(forall|i: int| 0 <= i < fs.len() ==> #[trigger] fs[i] == frags@[i]@);
    }
    let mut i: usize = 0;
    while i < frags.len()
        invariant
            i <= frags@.len(),
            fs == crate::range_tombstone::fragment_views(frags@),
            forall|k: int| 0 <= k < fs.len() ==> #[trigger] fs[k] == frags@[k]@,
            forall|a: Seq<u8>, b: Seq<u8>, d: Seq<u8>| #[trigger] ord.le(a, b) && #[trigger] ord.le(b, d) ==> ord.le(a, d),
            forall|a: Seq<u8>, b: Seq<u8>| #[trigger] ord.le(a, b) || ord.le(b, a),
            forall|k: int| 0 < k < i ==> crate::comparator::key_lt(*ord, (#[trigger] fs[k]).start, fs[k].end),
            forall|j: int, k: int| 0 <= j < k < i ==> ord.le((#[trigger] fs[j]).end, (#[trigger] fs[k]).start),
        decreases frags@.len() - i,
    {
        if i > 0 {
            let p = &frags[i - 1];
            let f = &frags[i];
            if ord.compare(p.end.as_slice(), f.start.as_slice()).is_gt() {
                assert(!ord.le(fs[i - 1].end, fs[i as int].start));
                return false;
            }
            if ord.compare(f.start.as_slice(), f.end.as_slice()).is_ge() {
                assert(!crate::comparator::key_lt(*ord, fs[i as int].start, fs[i as int].end));
                return false;
            }
        }
        proof {
            assert forall|j: int, k: int| 0 <= j < k < i + 1 implies ord.le((#[trigger] fs[j]).end, (#[trigger] fs[k]).start) by {
                if k == i && j < i - 1 {
                    assert(ord.le(fs[j].end, fs[i - 1].start));
                    assert(crate::comparator::key_lt(*ord, fs[i - 1].start, fs[i - 1].end));
                    assert(ord.le(fs[i - 1].start, fs[i - 1].end));
                    assert(ord.le(fs[j].end, fs[i - 1].end));
                    assert(ord.le(fs[i - 1].end, fs[i as int].start));
                }
            }
        }
        i += 1;
    }
    proof {
        assert forall|k: int| 0 <= k < fs.len() implies (#[trigger] fs[k]).seqs.len() > 0 && crate::range_tombstone::descending(fs[k].seqs) by {
            assert(frags@[k].seqs@.len() > 0);
        }
    }
    true
}

/// The fragments of an auxiliary block. Sections that cannot be read, and
/// fragments that are out of order, are corrupt.
pub fn load_fragments<C: Comparator>(ord: &C, aux: &[u8]) -> (r: Result<Vec<Fragment>, OndaError>)
    ensures
        match parse_table_fragments(*ord, aux@) {
            Ok(fs) => r is Ok && crate::range_tombstone::fragment_views(r->Ok_0@) == fs,
            Err(f) => r is Err && crate::format::reports(r->Err_0, f),
        },
{
    let sections = decode_aux_sections(aux)?;
    let ghost v = crate::sst_aux::section_views(sections@);
    let mut out: Vec<Fragment> = Vec::new();
    let mut i: usize = 0;
    assert(crate::range_tombstone::fragment_views(out@) =~= Seq::empty());
    while i < sections.len()
        invariant
            i <= sections@.len(),
            v == crate::sst_aux::section_views(sections@),
            crate::sst_aux::parse_aux(aux@) == Ok::<_, Fault>(v),
            forall|k: int| 0 <= k < i ==> crate::range_tombstone::parse_section((#[trigger] v[k]).1) is Some,
            crate::range_tombstone::fragment_views(out@) == (if i == 0 {
                Seq::empty()
            } else {
                crate::range_tombstone::parse_section(v[i - 1].1)->0
            }),
        decreases sections@.len() - i,
    {
        let s = sections[i].1;
        assert(v[i as int].1 == s@);
        match decode_fragments(s) {
            Err(e) => {
                return Err(e);
            },
            Ok(f) => {
                out = f;
            },
        }
        i += 1;
    }
    proof {
        let fs = crate::range_tombstone::fragment_views(out@);
        if i > 0 {
            let s = v[i - 1].1;
            if let Some((n, rest)) = crate::encoding::parse_uvarint(s) {
                lemma_section_seqs(rest, n as nat);
            }
        }
        assert forall|k: int| 0 <= k < out@.len() implies (#[trigger] out@[k]).seqs@.len() > 0 && crate::range_tombstone::descending(
            out@[k].seqs@,
        ) by {
            assert(fs[k] == out@[k]@);
        }
    }
    if !in_order(ord, &out) {
        return Err(corrupt("range fragments are unsorted, overlapping or empty"));
    }
    Ok(out)
}

// ---------------------------------------------------------------------------
// An open table
// ---------------------------------------------------------------------------

/// What is loaded of a table when it is opened.
#[verifier::ext_equal]
pub struct ReaderView {
    pub klog_path: Seq<char>,
    pub file_id: u64,
    pub index: Seq<crate::sst_index::IndexView>,
    pub min_key: Seq<u8>,
    pub num_entries: u64,
    pub max_seq: u64,
    pub codec: Codec,
    pub aux: BlockHandle,
    pub fragments: Seq<crate::range_tombstone::FragmentView>,
}

/// What is loaded of a table with this footer.
pub open spec fn opened(
    klog_path: Seq<char>,
    file_id: u64,
    footer: TableFooter,
    min_key: Seq<u8>,
    index: Seq<crate::sst_index::IndexView>,
    fragments: Seq<crate::range_tombstone::FragmentView>,
    bytewise: bool,
) -> ReaderView {
    ReaderView {
        klog_path,
        file_id,
        index,
        min_key,
        num_entries: footer.num_entries,
        max_seq: footer.max_seq,
        codec: Codec {
            layout: if footer.caps & crate::format::CAP_EXTENDED_RECORDS != 0 {
                crate::sst_entry::EntryLayout::Extended
            } else {
                crate::sst_entry::EntryLayout::Base
            },
            delta: footer.caps & crate::format::CAP_PREFIX_DELTA != 0,
            bytewise,
        },
        aux: footer.aux,
        fragments,
    }
}

/// An open table.
#[derive(Debug)]
pub struct Reader<C: Comparator> {
    klog_path: String,
    vlog_path: String,
    file_id: u64,
    ord: C,
    index: Vec<IndexEntry>,
    min_key: Vec<u8>,
    max_key: Vec<u8>,
    num_entries: u64,
    max_seq: u64,
    codec: Codec,
    aux: BlockHandle,
    fragments: Vec<Fragment>,
}

impl<C: Comparator> Reader<C> {
    pub closed spec fn view(&self) -> ReaderView {
        ReaderView {
            klog_path: self.klog_path@,
            file_id: self.file_id,
            index: crate::sst_index::index_views(self.index@),
            min_key: self.min_key@,
            num_entries: self.num_entries,
            max_seq: self.max_seq,
            codec: self.codec,
            aux: self.aux,
            fragments: crate::range_tombstone::fragment_views(self.fragments@),
        }
    }

    pub closed spec fn order(&self) -> C {
        self.ord
    }

    pub closed spec fn inv(&self) -> bool {
        &&& self.vlog_path@ == crate::sst_format::vlog_path_text(self.klog_path@)
        &&& self.max_key@ == crate::sst_index::max_key_of(self.min_key@, crate::sst_index::index_views(self.index@))
        &&& crate::range_tombstone::fragments_apart(self.ord, crate::range_tombstone::fragment_views(self.fragments@))
        &&& self.codec.bytewise ==> forall|a: Seq<u8>, b: Seq<u8>| #[trigger] self.ord.le(a, b) == crate::comparator::bytes_le(a, b)
    }

    /// Open a table from its footer, its index and its auxiliary block, where
    /// the footer says that there is one.
    pub fn open(klog_path: &str, file_id: u64, ord: C, footer: &TableFooter, min_key: Vec<u8>, index: Vec<IndexEntry>, aux: Option<&[u8]>) -> (r: Result<
        Reader<C>,
        OndaError,
    >)
        ensures
            match aux {
                None => r is Ok && r->Ok_0@.fragments.len() == 0,
                Some(a) => match parse_table_fragments(ord, a@) {
                    Err(f) => r is Err && crate::format::reports(r->Err_0, f),
                    Ok(fs) => r is Ok && r->Ok_0@.fragments == fs,
                },
            },
            r matches Ok(t) ==> t.inv() && t.order() == ord && t@ == opened(
                klog_path@,
                file_id,
                *footer,
                min_key@,
                crate::sst_index::index_views(index@),
                t@.fragments,
                t@.codec.bytewise,
            ),
    {
        let fragments = match aux {
            None => Vec::new(),
            Some(a) => load_fragments(&ord, a)?,
        };
        assert(aux is None ==> crate::range_tombstone::fragment_views(fragments@) =~= Seq::empty());
        Ok(Self::assemble(klog_path, file_id, ord, footer, min_key, index, fragments))
    }

    /// A table from what was read of it.
    pub(crate) fn assemble(
        klog_path: &str,
        file_id: u64,
        ord: C,
        footer: &TableFooter,
        min_key: Vec<u8>,
        index: Vec<IndexEntry>,
        fragments: Vec<Fragment>,
    ) -> (r: Reader<C>)
        requires
            crate::range_tombstone::fragments_apart(ord, crate::range_tombstone::fragment_views(fragments@)),
        ensures
            r.inv(),
            r.order() == ord,
            r@ == opened(
                klog_path@,
                file_id,
                *footer,
                min_key@,
                crate::sst_index::index_views(index@),
                crate::range_tombstone::fragment_views(fragments@),
                r@.codec.bytewise,
            ),
    {
        let bytewise = ord.is_bytewise();
        let codec = Codec { layout: footer.entry_layout(), delta: footer.prefix_delta(), bytewise };
        let max_key = crate::sst_index::max_key(min_key.as_slice(), &index);
        Reader {
            klog_path: String::from_str(klog_path),
            vlog_path: vlog_path_for(klog_path),
            file_id,
            ord,
            index,
            min_key,
            max_key,
            num_entries: footer.num_entries,
            max_seq: footer.max_seq,
            codec,
            aux: footer.aux,
            fragments,
        }
    }

    /// The order of its keys.
    pub fn comparator(&self) -> (r: &C)
        ensures
            *r == self.order(),
    {
        &self.ord
    }

    /// How its entries are read.
    pub fn codec(&self) -> (r: Codec)
        ensures
            r == self@.codec,
    {
        self.codec
    }

    /// Whether keys are stored as what they do not share with the key before.
    pub fn is_prefix_delta(&self) -> (r: bool)
        ensures
            r == self@.codec.delta,
    {
        self.codec.delta
    }

    /// The fragments of its range deletes.
    pub fn range_fragments(&self) -> (r: &Vec<Fragment>)
        ensures
            crate::range_tombstone::fragment_views(r@) == self@.fragments,
    {
        &self.fragments
    }

    /// The newest sequence, at or below `read_seq`, of a range delete that
    /// covers `key`.
    pub fn covering_seq(&self, key: &[u8], read_seq: u64) -> (r: Option<u64>)
        requires
            self.inv(),
        ensures
            crate::range_tombstone::newest_fragment(self.order(), self@.fragments, key@, read_seq, r),
    {
        if self.fragments.len() == 0 {
            return None;
        }
        covering_seq_in(&self.ord, &self.fragments, key, read_seq)
    }

    /// Where its auxiliary block stands: offset and length, both 0 where it
    /// has none.
    pub fn aux_block_handle(&self) -> (r: (u64, u64))
        ensures
            r == (self@.aux.offset, self@.aux.length),
    {
        (self.aux.offset, self.aux.length)
    }

    /// How many data blocks it has.
    pub fn data_block_count(&self) -> (r: usize)
        ensures
            r == self@.index.len(),
    {
        self.index.len()
    }

    /// Where data block `i` stands.
    pub fn block_handle(&self, i: usize) -> (r: BlockHandle)
        requires
            i < self@.index.len(),
        ensures
            r == self@.index[i as int].handle,
    {
        self.index[i].handle
    }

    /// The first block whose separator is not before `(user_key, seq)`; the
    /// number of blocks where there is none.
    pub fn find_block(&self, user_key: &[u8], seq: u64) -> (r: usize)
        ensures
            r <= self@.index.len(),
            r > 0 ==> crate::place::place_lt(self.order(), self@.index[r - 1].place(), (user_key@, seq)),
            r < self@.index.len() ==> !crate::place::place_lt(self.order(), self@.index[r as int].place(), (user_key@, seq)),
            crate::sst_index::index_sorted(self.order(), self@.index) ==> crate::sst_index::cuts(
                self.order(),
                self@.index,
                (user_key@, seq),
                r as int,
            ),
    {
        crate::sst_index::find_block(&self.ord, &self.index, user_key, seq)
    }

    /// The block that a read of `(user_key, seq)` needs: none where the filter
    /// does not admit the key, or it comes behind the last block.
    pub fn block_for(&self, admitted: bool, user_key: &[u8], seq: u64) -> (r: Option<usize>)
        ensures
            !admitted ==> r is None,
            match r {
                Some(b) => {
                    &&& b < self@.index.len()
                    &&& !crate::place::place_lt(self.order(), self@.index[b as int].place(), (user_key@, seq))
                    &&& b > 0 ==> crate::place::place_lt(self.order(), self@.index[b - 1].place(), (user_key@, seq))
                },
                None => admitted && self@.index.len() > 0 ==> crate::place::place_lt(
                    self.order(),
                    self@.index[self@.index.len() - 1].place(),
                    (user_key@, seq),
                ),
            },
            admitted && crate::sst_index::index_sorted(self.order(), self@.index) ==> crate::sst_index::cuts(
                self.order(),
                self@.index,
                (user_key@, seq),
                match r {
                    Some(b) => b as int,
                    None => self@.index.len() as int,
                },
            ),
    {
        if !admitted {
            return None;
        }
        let b = self.find_block(user_key, seq);
        if b < self.index.len() {
            Some(b)
        } else {
            None
        }
    }

    /// The bytes that stay in memory while the table is open: those of the
    /// index, those of the filter, and how many index entries there are.
    pub fn resident_breakdown(&self, bloom: usize) -> (r: (usize, usize, usize))
        ensures
            r.0 == at_most(index_bytes(self@.index) as int, usize::MAX as int),
            r.1 == bloom,
            r.2 == self@.index.len(),
    {
        let ghost v = self@.index;
        let each = std::mem::size_of::<IndexEntry>();
        let mut total: usize = 0;
        let mut i: usize = 0;
        assert(v.take(0) =~= Seq::empty());
        while i < self.index.len()
            invariant
                i <= self.index@.len(),
                v == crate::sst_index::index_views(self.index@),
                each == vstd::layout::size_of::<IndexEntry>(),
                total == at_most(index_bytes(v.take(i as int)) as int, usize::MAX as int),
            decreases self.index@.len() - i,
        {
            proof {
                let t = v.take(i + 1);
                assert(t.drop_last() =~= v.take(i as int));
                assert(t.last() == v[i as int]);
            }
            assert(v[i as int].key == self.index@[i as int].user_key@);
            total = total.saturating_add(each).saturating_add(self.index[i].user_key.len());
            i += 1;
        }
        assert(v.take(v.len() as int) =~= v);
        (total, bloom, self.index.len())
    }

    /// All bytes that stay in memory while the table is open.
    pub fn resident_bytes(&self, bloom: usize) -> (r: usize)
        requires
            self.inv(),
        ensures
            r == at_most(
                index_bytes(self@.index) + bloom + self@.min_key.len() + crate::sst_index::max_key_of(self@.min_key, self@.index).len(),
                usize::MAX as int,
            ),
    {
        let (index, _, _) = self.resident_breakdown(bloom);
        index.saturating_add(bloom).saturating_add(self.min_key.len()).saturating_add(self.max_key.len())
    }

    /// What the block that a read came to holds of the key.
    pub fn point(&self, block: &[u8], user_key: &[u8], read_seq: u64, now: i64) -> (r: Result<PointHit, OndaError>)
        ensures
            match crate::sst_block::split_parts(block@, self@.codec.delta) {
                None => r is Err && r->Err_0 is Corruption,
                Some((raw, restarts)) => {
                    &&& crate::sst_block::answers(self.order(), self@.codec, raw, restarts, (user_key@, read_seq), now, r)
                    &&& crate::sst_block::block_ok(self.order(), self@.codec, raw, restarts) ==> r is Ok && crate::sst_block::tells(
                        r->Ok_0,
                        crate::sst_block::find_point(self.order(), self@.codec, raw, 0, Seq::empty(), (user_key@, read_seq))->Ok_0,
                        now,
                    )
                },
            },
    {
        crate::sst_block::point_in_block(&self.ord, self.codec, block, user_key, read_seq, now)
    }

    pub fn min_key(&self) -> (r: &[u8])
        ensures
            r@ == self@.min_key,
    {
        self.min_key.as_slice()
    }

    /// The largest key: the last separator, which is the last key of the table.
    pub fn max_key(&self) -> (r: &[u8])
        requires
            self.inv(),
        ensures
            r@ == crate::sst_index::max_key_of(self@.min_key, self@.index),
    {
        self.max_key.as_slice()
    }

    pub fn num_entries(&self) -> (r: u64)
        ensures
            r == self@.num_entries,
    {
        self.num_entries
    }

    pub fn max_seq(&self) -> (r: u64)
        ensures
            r == self@.max_seq,
    {
        self.max_seq
    }

    pub fn file_id(&self) -> (r: u64)
        ensures
            r == self@.file_id,
    {
        self.file_id
    }

    pub fn klog_path(&self) -> (r: &str)
        ensures
            r@ == self@.klog_path,
    {
        self.klog_path.as_str()
    }

    pub fn vlog_path(&self) -> (r: &str)
        requires
            self.inv(),
        ensures
            r@ == crate::sst_format::vlog_path_text(self@.klog_path),
    {
        self.vlog_path.as_str()
    }
}

/// The bytes of an index in memory: each entry, and the bytes of its key.
pub open spec fn index_bytes(v: Seq<crate::sst_index::IndexView>) -> nat
    decreases v.len(),
{
    if v.len() == 0 { 0 } else { index_bytes(v.drop_last()) + vstd::layout::size_of::<IndexEntry>() + v.last().key.len() }
}

/// `n`, or `top` where that is less.
pub open spec fn at_most(n: int, top: int) -> int {
    if n <= top { n } else { top }
}

// ---------------------------------------------------------------------------
// Frames that were checked
// ---------------------------------------------------------------------------

/// How many frames are remembered at most.
pub const VLOG_VERIFIED_SLOTS: usize = 1024;
/// The slot of no frame.
pub const VLOG_SLOT_EMPTY: u64 = 0xFFFF_FFFF_FFFF_FFFF;

/// The slot of a frame.
pub open spec fn slot_of(off: u64) -> int {
    (((off as int * 0x9E37_79B9_7F4A_7C15) % 0x1_0000_0000_0000_0000) / 0x1_0000_0000) % 1024
}

/// Frames of a value log whose checksum held: a file does not change, so each
/// needs to be checked once. A frame may push another out, which is then
/// checked again.
#[derive(Debug)]
pub struct VerifiedFrames {
    slots: Vec<u64>,
}

impl VerifiedFrames {
    pub closed spec fn inv(&self) -> bool {
        self.slots@.len() == VLOG_VERIFIED_SLOTS
    }

    /// Whether a frame was checked and is still remembered.
    pub closed spec fn remembers(&self, off: u64) -> bool {
        self.slots@[slot_of(off)] == off
    }

    /// Nothing checked.
    pub fn new() -> (r: VerifiedFrames)
        ensures
            r.inv(),
            forall|off: u64| off != VLOG_SLOT_EMPTY ==> !#[trigger] r.remembers(off),
    {
        let slots: Vec<u64> = vec![VLOG_SLOT_EMPTY; VLOG_VERIFIED_SLOTS];
        let r = VerifiedFrames { slots };
        assert forall|off: u64| off != VLOG_SLOT_EMPTY implies !#[trigger] r.remembers(off) by {
            assert(0 <= slot_of(off) < 1024);
            assert(r.slots@[slot_of(off)] == VLOG_SLOT_EMPTY);
        }
        r
    }

    fn slot(off: u64) -> (r: usize)
        ensures
            r == slot_of(off),
    {
        let p = off.wrapping_mul(0x9E37_79B9_7F4A_7C15);
        let hi = p >> 32;
        assert(hi == p / 0x1_0000_0000) by (bit_vector)
            requires
                hi == p >> 32,
        ;
        (hi % 1024) as usize
    }

    /// Check the frame at `off`, unless it is known to be good. Only a frame
    /// whose checksum held is remembered.
    pub fn verify(&mut self, off: u64, stored: &[u8], want: u32) -> (r: Result<(), OndaError>)
        requires
            old(self).inv(),
        ensures
            final(self).inv(),
            r is Ok <==> old(self).remembers(off) || crate::encoding::crc32c(stored@) == want,
            r is Err ==> r->Err_0 is Corruption && *final(self) == *old(self),
            r is Ok ==> final(self).remembers(off) && forall|x: u64| #[trigger] final(self).remembers(x) ==> x == off || old(self).remembers(x),
    {
        let i = VerifiedFrames::slot(off);
        if self.slots[i] == off {
            return Ok(());
        }
        if checksum(stored) != want {
            return Err(corrupt("value log frame does not match its checksum"));
        }
        let ghost s0 = self.slots@;
        self.slots.set(i, off);
        proof {
            assert forall|x: u64| #[trigger] self.remembers(x) implies x == off || s0[slot_of(x)] == x by {
                assert(0 <= slot_of(x) < 1024);
                if slot_of(x) == i {
                    assert(self.slots@[slot_of(x)] == off);
                }
            }
        }
        Ok(())
    }
}

/// The header and the stored bytes of the frame at `off` of a value log, where
/// they lie within it.
pub open spec fn frame_bytes(log: Seq<u8>, off: int) -> Option<(Seq<u8>, Seq<u8>)> {
    let h = off + VLOG_FRAME_HDR_LEN;
    if off < 0 || h > log.len() {
        None
    } else {
        let head = log.subrange(off, h);
        let n = crate::sst_format::u32_at(head, 5) as int;
        if h + n > log.len() { None } else { Some((head, log.subrange(h, h + n))) }
    }
}

impl VerifiedFrames {
    /// The codec and the stored bytes of the frame of a value of `value_len`
    /// bytes, in a value log that is at hand; nothing where it ends before. A
    /// frame that stores more than the value has, or that does not match its
    /// checksum, is corrupt.
    pub fn frame_in<'a>(&mut self, log: &'a [u8], off: u64, value_len: usize) -> (r: Result<Option<(u8, &'a [u8])>, OndaError>)
        requires
            old(self).inv(),
        ensures
            final(self).inv(),
            r is Err ==> r->Err_0 is Corruption && *final(self) == *old(self),
            ({
                let fits = off + VLOG_FRAME_HDR_LEN <= log@.len();
                let head = log@.subrange(off as int, off + VLOG_FRAME_HDR_LEN);
                let stored = crate::sst_format::u32_at(head, 5);
                &&& !fits ==> (r matches Ok(x) && x is None)
                &&& fits && stored > value_len ==> r is Err
                &&& fits && stored <= value_len ==> match frame_bytes(log@, off as int) {
                    None => r matches Ok(x) && x is None,
                    Some((_, bytes)) => if old(self).remembers(off) || crate::encoding::crc32c(bytes) == crate::sst_format::u32_at(head, 0) {
                        r matches Ok(Some((codec, s))) && codec == head[4] && s@ == bytes && final(self).remembers(off)
                    } else {
                        r is Err
                    },
                }
            }),
    {
        let n = log.len();
        if off > n as u64 || (n as u64 - off) < VLOG_FRAME_HDR_LEN as u64 {
            return Ok(None);
        }
        let start = off as usize;
        let h = start + VLOG_FRAME_HDR_LEN;
        let head = &log[start..h];
        let (want, codec, stored) = decode_vlog_frame(head, value_len)?;
        if stored as u64 > (n - h) as u64 {
            return Ok(None);
        }
        let bytes = &log[h..h + stored as usize];
        self.verify(off, bytes, want)?;
        Ok(Some((codec, bytes)))
    }
}

/// Whether a value of `len` bytes is kept in a cache that takes values of at
/// most `limit` bytes, and none where that is 0.
pub fn caches_value(limit: usize, len: usize) -> (r: bool)
    ensures
        r == (limit > 0 && len <= limit),
{
    limit > 0 && len <= limit
}

// ---------------------------------------------------------------------------
// What an open table knows
// ---------------------------------------------------------------------------

/// An open table knows what its footer says: its entries, its newest sequence
/// and its auxiliary block; and reads its entries in the layout that the footer
/// asks for.
pub proof fn lemma_open_table_knows_its_footer(
    klog_path: Seq<char>,
    file_id: u64,
    footer: TableFooter,
    min_key: Seq<u8>,
    index: Seq<crate::sst_index::IndexView>,
    fragments: Seq<crate::range_tombstone::FragmentView>,
    bytewise: bool,
)
    ensures
        ({
            let t = opened(klog_path, file_id, footer, min_key, index, fragments, bytewise);
            &&& t.klog_path == klog_path
            &&& t.file_id == file_id
            &&& t.index == index
            &&& t.min_key == min_key
            &&& t.num_entries == footer.num_entries
            &&& t.max_seq == footer.max_seq
            &&& t.aux == footer.aux
            &&& t.fragments == fragments
            &&& t.codec.bytewise == bytewise
            &&& t.codec.delta <==> footer.caps & crate::format::CAP_PREFIX_DELTA != 0
            &&& t.codec.layout is Extended <==> footer.caps & crate::format::CAP_EXTENDED_RECORDS != 0
        }),
{
}

/// A table is read in the layout that it was written in.
pub proof fn lemma_table_is_read_as_written(
    opts: crate::sst_writer::WriterOptions,
    v: crate::sst_writer::WriterView,
    klog_path: Seq<char>,
    file_id: u64,
    footer: TableFooter,
    min_key: Seq<u8>,
    index: Seq<crate::sst_index::IndexView>,
    fragments: Seq<crate::range_tombstone::FragmentView>,
    bytewise: bool,
)
    requires
        footer.caps == crate::sst_writer::caps_of(opts, v),
    ensures
        ({
            let c = opened(klog_path, file_id, footer, min_key, index, fragments, bytewise).codec;
            &&& c.delta == opts.prefix_delta
            &&& c.layout is Extended <==> opts.extended_entries || opts.prefix_delta
        }),
{
    crate::sst_writer::lemma_footer_asks_for_what_is_there(opts, v);
}

/// The fragments that a table was given are those that it is opened with.
pub proof fn lemma_fragments_are_read_back<C: Comparator>(ord: C, fs: Seq<crate::range_tombstone::FragmentView>)
    requires
        crate::range_tombstone::section_fits(fs),
        crate::range_tombstone::section_wire(fs).len() <= u64::MAX,
        crate::range_tombstone::fragments_apart(ord, fs),
    ensures
        parse_table_fragments(
            ord,
            crate::sst_aux::aux_wire(seq![(crate::sst_aux::AUX_SECTION_RANGE, crate::range_tombstone::section_wire(fs))]),
        ) == Ok::<_, Fault>(fs),
{
    let v = seq![(crate::sst_aux::AUX_SECTION_RANGE, crate::range_tombstone::section_wire(fs))];
    crate::sst_aux::lemma_aux_round_trip(v);
    crate::range_tombstone::lemma_section_round_trip(fs);
    assert(v.last() == v[0]);
}

/// A frame of the value log is found where it was put: its header, and as many
/// bytes as the header says.
pub proof fn lemma_frame_is_found_where_it_was_put(before: Seq<u8>, head: Seq<u8>, bytes: Seq<u8>, after: Seq<u8>)
    requires
        head.len() == VLOG_FRAME_HDR_LEN,
        crate::sst_format::u32_at(head, 5) == bytes.len(),
    ensures
        frame_bytes(before + head + bytes + after, before.len() as int) == Some((head, bytes)),
        frame_bytes(before + head + bytes.take(0), before.len() as int) is Some <==> bytes.len() == 0,
{
    let off = before.len() as int;
    let h = off + VLOG_FRAME_HDR_LEN;
    let log = before + head + bytes + after;
    assert(log.subrange(off, h) =~= head);
    assert(log.subrange(h, h + bytes.len()) =~= bytes);
    let cut = before + head + bytes.take(0);
    assert(cut.subrange(off, h) =~= head);
}

/// The bytes of an index are those of its entries, each with its key.
pub proof fn lemma_index_bytes_add_up(a: Seq<crate::sst_index::IndexView>, b: Seq<crate::sst_index::IndexView>)
    ensures
        index_bytes(a + b) == index_bytes(a) + index_bytes(b),
        a.len() == 1 ==> index_bytes(a) == vstd::layout::size_of::<IndexEntry>() + a[0].key.len(),
    decreases b.len(),
{
    reveal_with_fuel(index_bytes, 2);
    if b.len() == 0 {
        assert(a + b =~= a);
    } else {
        assert((a + b).drop_last() =~= a + b.drop_last());
        lemma_index_bytes_add_up(a, b.drop_last());
    }
}

} // verus!
