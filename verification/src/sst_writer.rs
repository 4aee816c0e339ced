//! Building a table: which block a row goes to, where a block ends, and what
//! stands in the index and the footer. The bytes are framed and stored by the
//! caller, who says where they came to stand.

use vstd::prelude::*;

use crate::comparator::Comparator;
use crate::encoding::copy_bytes;
use crate::error::OndaError;
use crate::format::{check_kind, is_point_kind, kind_to_point_flags, KIND_MERGE};
use crate::prefix_rule::{longest_prefix, PrefixRule};
use crate::range_tombstone::{encode_fragments, Fragment};
use crate::sst_aux::{encode_aux_sections, AUX_SECTION_RANGE};
use crate::sst_block::Codec;
use crate::sst_build::{append_row, append_trailer, Row};
use crate::sst_entry::EntryLayout;
use crate::sst_format::{BlockHandle, FileMeta, FooterFields, DEFAULT_BLOCK_SIZE, VLOG_FRAME_HDR_LEN, VLOG_HEADER_LEN};
use crate::sst_index::{settle_separator, IndexEntry};

verus! {

/// A compression codec for the keys that start with a prefix.
#[derive(Debug)]
pub struct CompressionRule {
    pub prefix: Vec<u8>,
    pub codec: u8,
}

impl PrefixRule for CompressionRule {
    open spec fn prefix_bytes(&self) -> Seq<u8> {
        self.prefix@
    }

    fn prefix(&self) -> (r: &[u8]) {
        self.prefix.as_slice()
    }
}

/// The codec of the rule with the longest prefix that `key` starts with.
pub fn compression_for_key(rules: &Vec<CompressionRule>, key: &[u8]) -> (r: Option<u8>)
    ensures
        match r {
            Some(c) => exists|i: int| #[trigger] crate::prefix_rule::decides(rules@, key@, i) && rules@[i].codec == c,
            None => crate::prefix_rule::undecided(rules@, key@),
        },
{
    match longest_prefix(rules, key) {
        None => None,
        Some(i) => Some(rules[i].codec),
    }
}

/// How a table is built.
#[derive(Debug)]
pub struct WriterOptions {
    /// The codec for keys that no rule is for.
    pub compression: u8,
    pub compression_rules: Vec<CompressionRule>,
    /// Values at least so long go to the value log; 0 stands for 512.
    pub klog_value_threshold: usize,
    /// How long a block is to be; 0 stands for the default.
    pub block_size: usize,
    /// Whether the index is laid out as a tree.
    pub use_btree: bool,
    /// How many rows lie between restart anchors.
    pub restart_interval: usize,
    pub extended_entries: bool,
    /// Whether keys are stored as what they do not share with the key before,
    /// which takes the extended layout.
    pub prefix_delta: bool,
}

impl WriterOptions {
    pub open spec fn extended(self) -> bool {
        self.extended_entries || self.prefix_delta
    }

    pub open spec fn threshold(self) -> int {
        if self.klog_value_threshold == 0 { 512 } else { self.klog_value_threshold as int }
    }

    pub open spec fn target(self) -> int {
        if self.block_size == 0 { DEFAULT_BLOCK_SIZE as int } else { self.block_size as int }
    }
}

/// A block whose separator waits for the first key of the next.
#[verifier::ext_equal]
pub struct PendingView {
    pub key: Seq<u8>,
    pub seq: u64,
    pub handle: BlockHandle,
}

/// What has been built.
#[verifier::ext_equal]
pub struct WriterView {
    /// The rows of the finished blocks.
    pub blocks: Seq<Seq<Row>>,
    /// The rows of the block being built.
    pub rows: Seq<Row>,
    pub codec: u8,
    pub index: Seq<crate::sst_index::IndexView>,
    pub pending: Option<PendingView>,
    /// Whether a block was taken of which it is not known yet where it stands.
    pub taken: bool,
    pub klog_off: u64,
    /// Where the value log ends; 0 before it is begun.
    pub vlog_off: u64,
    pub num_entries: u64,
    pub num_tombstones: u64,
    pub max_seq: u64,
    pub min_key: Option<Seq<u8>>,
    pub last_key: Seq<u8>,
    pub last_seq: u64,
    pub merges: bool,
    pub fragments: Seq<crate::range_tombstone::FragmentView>,
}

/// A table being built.
pub struct Writer<C: Comparator> {
    opts: WriterOptions,
    ord: C,
    bytewise: bool,
    cur_block: Vec<u8>,
    cur_codec: u8,
    cur_restarts: Vec<u32>,
    cur_entries: usize,
    index: Vec<IndexEntry>,
    pending: Option<IndexEntry>,
    taken: bool,
    klog_off: u64,
    vlog_off: u64,
    num_entries: u64,
    num_tombstones: u64,
    max_seq: u64,
    min_key: Option<Vec<u8>>,
    last_key: Vec<u8>,
    last_seq: u64,
    wrote_merge: bool,
    range_fragments: Vec<Fragment>,
    rows: Ghost<Seq<Row>>,
    blocks: Ghost<Seq<Seq<Row>>>,
}

pub open spec fn opt_bytes(v: Option<Vec<u8>>) -> Option<Seq<u8>> {
    match v {
        None => None,
        Some(k) => Some(k@),
    }
}

/// The blocks with the one being built.
pub open spec fn all_blocks(v: WriterView) -> Seq<Seq<Row>> {
    if v.rows.len() > 0 { v.blocks.push(v.rows) } else { v.blocks }
}

/// Whether the separators so far are those of the blocks.
pub open spec fn index_so_far(bytewise: bool, v: WriterView) -> bool {
    let all = all_blocks(v);
    &&& v.index.len() + (if v.pending is Some { 1int } else { 0 }) + (if v.taken { 1int } else { 0 }) == v.blocks.len()
    &&& forall|i: int| 0 <= i < v.blocks.len() ==> (#[trigger] v.blocks[i]).len() > 0
    &&& forall|i: int|
        0 <= i < v.index.len() && i + 1 < all.len() ==> (#[trigger] v.index[i]).place() == crate::sst_index::settled(
            bytewise,
            all[i].last().key,
            all[i].last().seq,
            all[i + 1][0].key,
        )
    &&& v.index.len() > 0 ==> v.index.len() < all.len()
    &&& v.pending matches Some(p) ==> v.rows.len() == 0 && !v.taken && p.key == v.blocks.last().last().key && p.seq == v.blocks.last().last().seq
    &&& v.taken ==> v.rows.len() == 0 && v.last_key == v.blocks.last().last().key && v.last_seq == v.blocks.last().last().seq
}

/// The state with the pending separator settled against the next key.
pub open spec fn settled_view(bytewise: bool, v: WriterView, next: Seq<u8>) -> WriterView {
    match v.pending {
        None => v,
        Some(p) => {
            let s = crate::sst_index::settled(bytewise, p.key, p.seq, next);
            WriterView { pending: None, index: v.index.push(crate::sst_index::IndexView { key: s.0, seq: s.1, handle: p.handle }), ..v }
        },
    }
}

/// A row as it is stored: a deletion has no value.
pub open spec fn row_for(key: Seq<u8>, value: Seq<u8>, seq: u64, ttl: i64, kind: u64, logged: Option<u64>) -> Row {
    Row { key, value: if crate::format::kind_is_tombstone(kind) { Seq::empty() } else { value }, seq, ttl, kind, logged }
}

/// The state with a row more.
pub open spec fn added(bytewise: bool, v: WriterView, r: Row, codec: u8) -> WriterView {
    let s = settled_view(bytewise, v, r.key);
    WriterView {
        rows: s.rows.push(r),
        codec: if s.rows.len() == 0 { codec } else { s.codec },
        num_entries: (s.num_entries + 1) as u64,
        num_tombstones: (s.num_tombstones + (if crate::format::kind_is_tombstone(r.kind) { 1int } else { 0 })) as u64,
        max_seq: if r.seq > s.max_seq { r.seq } else { s.max_seq },
        min_key: if s.min_key is None { Some(r.key) } else { s.min_key },
        last_key: r.key,
        last_seq: r.seq,
        merges: s.merges || r.kind == KIND_MERGE,
        ..s
    }
}

/// Whether a table built so refuses a kind, and how.
pub open spec fn refuses(opts: WriterOptions, kind: u64, e: OndaError) -> bool {
    match crate::format::kind_fault(kind) {
        Some(f) => crate::format::reports(e, f),
        None => !opts.extended() && !crate::format::flags_suffice(kind) && e is InvalidArgs,
    }
}

pub open spec fn takes(opts: WriterOptions, kind: u64) -> bool {
    crate::format::kind_fault(kind) is None && (opts.extended() || crate::format::flags_suffice(kind))
}

/// What a table must be read with.
pub open spec fn caps_of(opts: WriterOptions, v: WriterView) -> u64 {
    let e: u64 = if opts.extended() { crate::format::CAP_EXTENDED_RECORDS } else { 0 };
    let d: u64 = if opts.prefix_delta { crate::format::CAP_PREFIX_DELTA } else { 0 };
    let m: u64 = if v.merges { crate::format::CAP_MERGE_OPERANDS } else { 0 };
    let r: u64 = if v.fragments.len() > 0 { crate::format::CAP_RANGE_DELETES } else { 0 };
    e | d | m | r
}

impl<C: Comparator> Writer<C> {
    pub closed spec fn view(&self) -> WriterView {
        WriterView {
            blocks: self.blocks@,
            rows: self.rows@,
            codec: self.cur_codec,
            index: crate::sst_index::index_views(self.index@),
            pending: match self.pending {
                None => None,
                Some(p) => Some(PendingView { key: p.user_key@, seq: p.seq, handle: p.handle }),
            },
            taken: self.taken,
            klog_off: self.klog_off,
            vlog_off: self.vlog_off,
            num_entries: self.num_entries,
            num_tombstones: self.num_tombstones,
            max_seq: self.max_seq,
            min_key: opt_bytes(self.min_key),
            last_key: self.last_key@,
            last_seq: self.last_seq,
            merges: self.wrote_merge,
            fragments: crate::range_tombstone::fragment_views(self.range_fragments@),
        }
    }

    pub closed spec fn options(&self) -> WriterOptions {
        self.opts
    }

    pub closed spec fn order(&self) -> C {
        self.ord
    }

    /// Whether keys are known to be in the plain order of bytes.
    pub closed spec fn is_bytewise(&self) -> bool {
        self.bytewise
    }

    /// How the entries of the table are to be read.
    pub open spec fn read_as(&self) -> Codec {
        Codec {
            layout: if self.options().extended() { EntryLayout::Extended } else { EntryLayout::Base },
            delta: self.options().prefix_delta,
            bytewise: self.is_bytewise(),
        }
    }

    pub open spec fn interval(&self) -> int {
        self.options().restart_interval as int
    }

    /// The entries of the block being built, as bytes.
    pub open spec fn block_bytes(&self) -> Seq<u8> {
        crate::sst_build::rows_wire(self.read_as(), self.interval(), self@.rows)
    }

    pub open spec fn block_anchors(&self) -> Seq<u32> {
        crate::sst_build::anchors_of(self.read_as(), self.interval(), self@.rows)
    }

    pub closed spec fn inv(&self) -> bool {
        &&& self.opts.restart_interval > 0
        &&& self.bytewise ==> forall|a: Seq<u8>, b: Seq<u8>| #[trigger] self.ord.le(a, b) == crate::comparator::bytes_le(a, b)
        &&& self.cur_block@ == self.block_bytes()
        &&& self.cur_restarts@ == self.block_anchors()
        &&& self.cur_entries == self.rows@.len()
        &&& self.rows@.len() > 0 ==> self.last_key@ == self.rows@.last().key && self.last_seq == self.rows@.last().seq
        &&& index_so_far(self.bytewise, self@)
        &&& self.num_tombstones <= self.num_entries
        &&& forall|i: int| 0 <= i < self.rows@.len() ==> takes(self.opts, (#[trigger] self.rows@[i]).kind)
    }

    /// A table with nothing in it. Rows must lie at least one apart from anchor
    /// to anchor.
    pub fn new(opts: WriterOptions, ord: C) -> (r: Result<Writer<C>, OndaError>)
        ensures
            opts.restart_interval == 0 ==> r is Err && r->Err_0 is InvalidArgs && crate::text::holds_text(
                r->Err_0.message_text(),
                "restart_interval"@,
            ),
            opts.restart_interval != 0 ==> (r matches Ok(w) && {
                &&& w.inv()
                &&& w.options() == opts
                &&& w.order() == ord
                &&& w@ == (WriterView {
                    blocks: Seq::empty(),
                    rows: Seq::empty(),
                    codec: opts.compression,
                    index: Seq::empty(),
                    pending: None,
                    taken: false,
                    klog_off: 0,
                    vlog_off: 0,
                    num_entries: 0,
                    num_tombstones: 0,
                    max_seq: 0,
                    min_key: None,
                    last_key: Seq::empty(),
                    last_seq: 0,
                    merges: false,
                    fragments: Seq::empty(),
                })
            }),
    {
        if opts.restart_interval == 0 {
            proof {
                let empty = Seq::<char>::empty();
                crate::text::lemma_holds_piece(
                    empty,
                    "restart_interval"@,
                    " must be at least 1: "@ + "every data block carries a restart trailer"@,
                );
                assert(empty + "restart_interval"@ + (" must be at least 1: "@ + "every data block carries a restart trailer"@)
                    =~= "restart_interval"@ + " must be at least 1: "@ + "every data block carries a restart trailer"@);
            }
            return Err(
                OndaError::InvalidArgs(
                    crate::text::join3("restart_interval", " must be at least 1: ", "every data block carries a restart trailer"),
                ),
            );
        }
        let bytewise = ord.is_bytewise();
        let codec = opts.compression;
        let w = Writer {
            opts,
            ord,
            bytewise,
            cur_block: Vec::new(),
            cur_codec: codec,
            cur_restarts: Vec::new(),
            cur_entries: 0,
            index: Vec::new(),
            pending: None,
            taken: false,
            klog_off: 0,
            vlog_off: 0,
            num_entries: 0,
            num_tombstones: 0,
            max_seq: 0,
            min_key: None,
            last_key: Vec::new(),
            last_seq: 0,
            wrote_merge: false,
            range_fragments: Vec::new(),
            rows: Ghost(Seq::empty()),
            blocks: Ghost(Seq::empty()),
        };
        proof {
            assert(w@.index =~= Seq::empty());
            assert(w@.fragments =~= Seq::empty());
            assert(w.cur_block@ =~= w.block_bytes());
            assert(w.cur_restarts@ =~= w.block_anchors());
        }
        Ok(w)
    }

    /// The codec of a key.
    pub fn codec_for(&self, user_key: &[u8]) -> (r: u8)
        ensures
            (exists|i: int| #[trigger]
                crate::prefix_rule::decides(self.options().compression_rules@, user_key@, i) && r == self.options().compression_rules@[i].codec)
                || (r == self.options().compression && crate::prefix_rule::undecided(self.options().compression_rules@, user_key@)),
    {
        match compression_for_key(&self.opts.compression_rules, user_key) {
            None => self.opts.compression,
            Some(c) => c,
        }
    }

    /// Whether a value goes to the value log.
    pub fn separates(&self, kind: u64, value_len: usize) -> (r: bool)
        ensures
            r == (!crate::format::kind_is_tombstone(kind) && value_len >= self.options().threshold()),
    {
        let (tombstone, _) = kind_to_point_flags(kind);
        let threshold: usize = if self.opts.klog_value_threshold == 0 { 512 } else { self.opts.klog_value_threshold };
        !tombstone && value_len >= threshold
    }

    /// Where the next frame of the value log goes, which holds `stored_len`
    /// bytes. The first follows the header of the log.
    pub fn place_frame(&mut self, stored_len: u64) -> (r: u64)
        requires
            old(self).inv(),
            old(self)@.vlog_off + VLOG_HEADER_LEN + VLOG_FRAME_HDR_LEN + stored_len <= u64::MAX,
        ensures
            final(self).inv(),
            final(self).options() == old(self).options(),
            final(self).order() == old(self).order(),
            final(self).is_bytewise() == old(self).is_bytewise(),
            r == (if old(self)@.vlog_off == 0 { VLOG_HEADER_LEN as u64 } else { old(self)@.vlog_off }),
            final(self)@ == (WriterView { vlog_off: (r + VLOG_FRAME_HDR_LEN + stored_len) as u64, ..old(self)@ }),
    {
        let off = if self.vlog_off == 0 { VLOG_HEADER_LEN as u64 } else { self.vlog_off };
        self.vlog_off = off + VLOG_FRAME_HDR_LEN as u64 + stored_len;
        off
    }

    /// Whether the block being built must end before a row with this codec.
    pub fn must_cut(&self, codec: u8) -> (r: bool)
        requires
            self.inv(),
        ensures
            r == (self@.rows.len() > 0 && codec != self@.codec),
    {
        self.cur_entries > 0 && codec != self.cur_codec
    }

    /// Whether the block being built has come to its length, its trailer
    /// counted in.
    pub fn is_full(&self) -> (r: bool)
        requires
            self.inv(),
        ensures
            r == (self@.rows.len() > 0 && self.block_bytes().len() + 4 * self.block_anchors().len() + 4 >= self.options().target()),
    {
        let target = if self.opts.block_size == 0 { DEFAULT_BLOCK_SIZE } else { self.opts.block_size };
        let len = self.cur_block.len();
        self.cur_entries > 0 && (len >= target || self.cur_restarts.len() >= (target - len - 1) / 4)
    }

    /// Refuse a kind that the table has no place for.
    pub fn check_kind(&self, kind: u64) -> (r: Result<(), OndaError>)
        ensures
            r is Ok <==> takes(self.options(), kind),
            r matches Err(e) ==> refuses(self.options(), kind, e),
    {
        check_kind(kind)?;
        if !self.opts.extended_entries && !self.opts.prefix_delta && !is_point_kind(kind) {
            return Err(
                OndaError::InvalidArgs(crate::text::with_number("record kind ", kind, " needs the extended entry layout")),
            );
        }
        Ok(())
    }

    fn settle(&mut self, next_key: &[u8])
        requires
            old(self).inv(),
            !old(self).taken,
        ensures
            final(self)@ == settled_view(old(self).bytewise, old(self)@, next_key@),
            final(self).opts == old(self).opts,
            final(self).ord == old(self).ord,
            final(self).bytewise == old(self).bytewise,
            final(self).cur_block == old(self).cur_block,
            final(self).cur_restarts == old(self).cur_restarts,
            final(self).cur_entries == old(self).cur_entries,
            final(self).rows == old(self).rows,
    {
        let mut pending: Option<IndexEntry> = None;
        std::mem::swap(&mut pending, &mut self.pending);
        match pending {
            None => {},
            Some(p) => {
                let (key, seq) = settle_separator(self.bytewise, p.user_key.as_slice(), p.seq, next_key);
                let e = IndexEntry { user_key: key, seq, handle: p.handle };
                let ghost i0 = self.index@;
                self.index.push(e);
                assert(crate::sst_index::index_views(self.index@) =~= crate::sst_index::index_views(i0).push(e@));
            },
        }
    }

    fn push_row(&mut self, user_key: &[u8], stored: &[u8], seq: u64, ttl: i64, kind: u64, logged: Option<u64>)
        requires
            old(self).opts.restart_interval > 0,
            old(self).cur_block@ == old(self).block_bytes(),
            old(self).cur_restarts@ == old(self).block_anchors(),
            old(self).cur_entries == old(self).rows@.len(),
            old(self).rows@.len() > 0 ==> old(self).last_key@ == old(self).rows@.last().key,
            old(self).rows@.len() < usize::MAX,
            !(crate::format::kind_is_tombstone(kind) && logged is Some),
            takes(old(self).opts, kind),
        ensures
            final(self).rows@ == old(self).rows@.push(Row { key: user_key@, value: stored@, seq, ttl, kind, logged }),
            final(self).cur_block@ == final(self).block_bytes(),
            final(self).cur_restarts@ == final(self).block_anchors(),
            final(self).cur_entries == final(self).rows@.len(),
            *final(self) == (Writer {
                cur_block: final(self).cur_block,
                cur_restarts: final(self).cur_restarts,
                cur_entries: final(self).cur_entries,
                rows: final(self).rows,
                ..*old(self)
            }),
    {
        let c = self.codec();
        let anchor = self.cur_entries % self.opts.restart_interval == 0;
        let ghost rows0 = self.rows@;
        let ghost row = Row { key: user_key@, value: stored@, seq, ttl, kind, logged };
        let ghost rows1 = rows0.push(row);
        let ghost base = crate::sst_build::base_key(rows1, self.opts.restart_interval as int, rows0.len() as int);
        if anchor {
            let at = self.cur_block.len();
            self.cur_restarts.push(#[verifier::truncate] (at as u32));
        }
        let empty: Vec<u8> = Vec::new();
        let prev: &[u8] = if anchor { empty.as_slice() } else { self.last_key.as_slice() };
        let ghost interval = self.opts.restart_interval as int;
        assert(prev@ =~= base) by {
            if rows0.len() > 0 {
                assert(rows1[rows0.len() - 1] == rows0.last());
            } else {
                assert(0int % interval == 0) by (nonlinear_arith)
                    requires
                        interval > 0,
                ;
            }
        }
        append_row(&mut self.cur_block, c, prev, user_key, stored, seq, ttl, kind, logged);
        self.cur_entries = self.cur_entries + 1;
        self.rows = Ghost(rows1);
        proof {
            assert(rows1.drop_last() =~= rows0);
            assert(rows1.last() == row);
        }
    }

    fn count_row(&mut self, user_key: &[u8], seq: u64, kind: u64, tombstone: bool)
        requires
            old(self).num_entries < u64::MAX,
            old(self).num_tombstones <= old(self).num_entries,
        ensures
            final(self).last_key@ == user_key@,
            opt_bytes(final(self).min_key) == (match old(self).min_key {
                None => Some(user_key@),
                Some(k) => Some(k@),
            }),
            *final(self) == (Writer {
                num_entries: (old(self).num_entries + 1) as u64,
                num_tombstones: (old(self).num_tombstones + (if tombstone { 1int } else { 0 })) as u64,
                max_seq: if seq > old(self).max_seq { seq } else { old(self).max_seq },
                wrote_merge: old(self).wrote_merge || kind == KIND_MERGE,
                min_key: final(self).min_key,
                last_key: final(self).last_key,
                last_seq: seq,
                ..*old(self)
            }),
    {
        if self.min_key.is_none() {
            self.min_key = Some(copy_bytes(user_key));
        }
        self.num_entries = self.num_entries + 1;
        if tombstone {
            self.num_tombstones = self.num_tombstones + 1;
        }
        if seq > self.max_seq {
            self.max_seq = seq;
        }
        if kind == KIND_MERGE {
            self.wrote_merge = true;
        }
        self.last_key = copy_bytes(user_key);
        self.last_seq = seq;
    }

    /// Add a row, behind every row so far. The value of a deletion is left out;
    /// a value in the value log is given with where it stands there.
    #[verifier::rlimit(60)]
    pub fn add(&mut self, user_key: &[u8], value: &[u8], seq: u64, ttl: i64, kind: u64, codec: u8, logged: Option<u64>) -> (r: Result<
        (),
        OndaError,
    >)
        requires
            old(self).inv(),
            !old(self)@.taken,
            !(crate::format::kind_is_tombstone(kind) && logged is Some),
            old(self)@.rows.len() > 0 ==> codec == old(self)@.codec,
            old(self)@.num_entries < u64::MAX,
            old(self)@.rows.len() < usize::MAX,
        ensures
            final(self).inv(),
            final(self).options() == old(self).options(),
            final(self).order() == old(self).order(),
            final(self).is_bytewise() == old(self).is_bytewise(),
            takes(old(self).options(), kind) ==> r is Ok && final(self)@ == added(
                old(self).is_bytewise(),
                old(self)@,
                row_for(user_key@, value@, seq, ttl, kind, logged),
                codec,
            ),
            !takes(old(self).options(), kind) ==> (r matches Err(e) && refuses(old(self).options(), kind, e)) && final(self)@ == old(self)@,
    {
        let ghost v0 = self@;
        self.check_kind(kind)?;
        let (tombstone, _) = kind_to_point_flags(kind);
        self.settle(user_key);
        let ghost v1 = self@;
        if self.cur_entries == 0 {
            self.cur_codec = codec;
        }
        let empty: Vec<u8> = Vec::new();
        let stored: &[u8] = if tombstone { empty.as_slice() } else { value };
        let ghost row = row_for(user_key@, value@, seq, ttl, kind, logged);
        assert(stored@ =~= row.value);
        self.push_row(user_key, stored, seq, ttl, kind, logged);
        self.count_row(user_key, seq, kind, tombstone);
        proof {
            let w = added(self.bytewise, v0, row, codec);
            assert(self@.rows == w.rows);
            assert(self@.index == w.index);
            assert(self@.min_key == w.min_key);
            assert(self@ == w);
            lemma_index_grows(self.bytewise, v0, row, codec);
        }
        Ok(())
    }

    fn codec(&self) -> (r: Codec)
        ensures
            r == self.read_as(),
    {
        let layout = if self.opts.extended_entries || self.opts.prefix_delta { EntryLayout::Extended } else { EntryLayout::Base };
        Codec { layout, delta: self.opts.prefix_delta, bytewise: self.bytewise }
    }

    /// Finish the block being built: its bytes, and the codec they are to be
    /// stored with. Nothing where it has no row.
    pub fn take_block(&mut self) -> (r: Option<(Vec<u8>, u8)>)
        requires
            old(self).inv(),
            !old(self)@.taken,
        ensures
            final(self).inv(),
            final(self).options() == old(self).options(),
            final(self).order() == old(self).order(),
            final(self).is_bytewise() == old(self).is_bytewise(),
            old(self)@.rows.len() == 0 ==> r is None && final(self)@ == old(self)@,
            old(self)@.rows.len() > 0 ==> {
                &&& r matches Some((bytes, codec)) && bytes@ == crate::sst_table::block_of(
                    old(self).read_as(),
                    old(self).interval(),
                    old(self)@.rows,
                ) && codec == old(self)@.codec
                &&& final(self)@ == (WriterView {
                    blocks: old(self)@.blocks.push(old(self)@.rows),
                    rows: Seq::empty(),
                    taken: true,
                    ..old(self)@
                })
            },
    {
        if self.cur_entries == 0 {
            return None;
        }
        let ghost v0 = self@;
        let mut bytes: Vec<u8> = Vec::new();
        std::mem::swap(&mut bytes, &mut self.cur_block);
        append_trailer(&mut bytes, &self.cur_restarts);
        self.cur_restarts = Vec::new();
        self.cur_entries = 0;
        self.taken = true;
        self.blocks = Ghost(self.blocks@.push(self.rows@));
        self.rows = Ghost(Seq::empty());
        proof {
            assert(self.cur_block@ =~= self.block_bytes());
            assert(self.cur_restarts@ =~= self.block_anchors());
            let v1 = self@;
            assert(all_blocks(v1) =~= all_blocks(v0));
            assert(v0.pending is None);
            assert forall|i: int| 0 <= i < v1.blocks.len() implies (#[trigger] v1.blocks[i]).len() > 0 by {
                if i < v0.blocks.len() {
                    assert(v1.blocks[i] == v0.blocks[i]);
                }
            }
            assert(v1.blocks.last() == v0.rows);
        }
        Some((bytes, self.cur_codec))
    }

    /// The block that was taken stands behind the others, in `framed_len` bytes.
    pub fn block_written(&mut self, framed_len: u64)
        requires
            old(self).inv(),
            old(self)@.taken,
            old(self)@.klog_off + framed_len <= u64::MAX,
        ensures
            final(self).inv(),
            final(self).options() == old(self).options(),
            final(self).order() == old(self).order(),
            final(self).is_bytewise() == old(self).is_bytewise(),
            final(self)@ == (WriterView {
                taken: false,
                pending: Some(
                    PendingView {
                        key: old(self)@.last_key,
                        seq: old(self)@.last_seq,
                        handle: BlockHandle { offset: old(self)@.klog_off, length: framed_len },
                    },
                ),
                klog_off: (old(self)@.klog_off + framed_len) as u64,
                ..old(self)@
            }),
    {
        let handle = BlockHandle { offset: self.klog_off, length: framed_len };
        self.pending = Some(IndexEntry { user_key: copy_bytes(self.last_key.as_slice()), seq: self.last_seq, handle });
        self.taken = false;
        self.klog_off = self.klog_off + framed_len;
    }

    /// A block that holds no rows stands behind the others, in `framed_len`
    /// bytes; where it stands.
    pub fn meta_written(&mut self, framed_len: u64) -> (r: BlockHandle)
        requires
            old(self)@.klog_off + framed_len <= u64::MAX,
        ensures
            old(self).inv() ==> final(self).inv(),
            final(self).options() == old(self).options(),
            final(self).order() == old(self).order(),
            final(self).is_bytewise() == old(self).is_bytewise(),
            r == (BlockHandle { offset: old(self)@.klog_off, length: framed_len }),
            final(self)@ == (WriterView { klog_off: (old(self)@.klog_off + framed_len) as u64, ..old(self)@ }),
    {
        let handle = BlockHandle { offset: self.klog_off, length: framed_len };
        self.klog_off = self.klog_off + framed_len;
        handle
    }

    /// The fragments that go into the table, sorted and apart.
    pub fn set_range_fragments(&mut self, frags: Vec<Fragment>)
        requires
            old(self).inv(),
        ensures
            final(self).inv(),
            final(self).options() == old(self).options(),
            final(self).order() == old(self).order(),
            final(self).is_bytewise() == old(self).is_bytewise(),
            final(self)@ == (WriterView { fragments: crate::range_tombstone::fragment_views(frags@), ..old(self)@ }),
    {
        self.range_fragments = frags;
    }

    /// The fragments so far.
    pub fn range_fragments(&self) -> (r: &Vec<Fragment>)
        ensures
            crate::range_tombstone::fragment_views(r@) == self@.fragments,
    {
        &self.range_fragments
    }

    /// The auxiliary block, where the table has fragments. They are for a
    /// table in the extended layout alone.
    pub fn aux_block(&self) -> (r: Result<Option<Vec<u8>>, OndaError>)
        ensures
            self@.fragments.len() == 0 ==> (r matches Ok(b) && b is None),
            self@.fragments.len() > 0 && !self.options().extended() ==> r is Err && r->Err_0 is InvalidArgs,
            self@.fragments.len() > 0 && self.options().extended() ==> (r matches Ok(Some(b)) && b@ == crate::sst_aux::aux_wire(
                seq![(AUX_SECTION_RANGE, crate::range_tombstone::section_wire(self@.fragments))],
            )),
    {
        if self.range_fragments.len() == 0 {
            return Ok(None);
        }
        if !self.opts.extended_entries && !self.opts.prefix_delta {
            return Err(
                OndaError::InvalidArgs(crate::text::join3("range fragments require an extended table: ", "a range delete is a kind-bearing record", "")),
            );
        }
        let mut sections: Vec<(u8, Vec<u8>)> = Vec::new();
        sections.push((AUX_SECTION_RANGE, encode_fragments(self.range_fragments.as_slice())));
        assert(crate::sst_aux::owned_views(sections@) =~= seq![
            (AUX_SECTION_RANGE, crate::range_tombstone::section_wire(self@.fragments)),
        ]);
        Ok(Some(encode_aux_sections(&sections)))
    }

    /// End the index: the separator of the last block is its last row.
    pub fn finish_index(&mut self)
        requires
            old(self).inv(),
            !old(self)@.taken,
            old(self)@.rows.len() == 0,
        ensures
            final(self).options() == old(self).options(),
            final(self).order() == old(self).order(),
            final(self).is_bytewise() == old(self).is_bytewise(),
            final(self)@ == (WriterView {
                pending: None,
                index: match old(self)@.pending {
                    None => old(self)@.index,
                    Some(p) => old(self)@.index.push(crate::sst_index::IndexView { key: p.key, seq: p.seq, handle: p.handle }),
                },
                ..old(self)@
            }),
            crate::sst_table::index_leads(old(self).is_bytewise(), final(self)@.blocks, final(self)@.index),
    {
        let ghost v0 = self@;
        let mut pending: Option<IndexEntry> = None;
        std::mem::swap(&mut pending, &mut self.pending);
        match pending {
            None => {},
            Some(p) => {
                let ghost i0 = self.index@;
                self.index.push(p);
                assert(crate::sst_index::index_views(self.index@) =~= crate::sst_index::index_views(i0).push(p@));
            },
        }
        proof {
            let v1 = self@;
            assert(all_blocks(v0) =~= v0.blocks);
            assert forall|i: int| 0 <= i < v1.index.len() implies (#[trigger] v1.index[i]).place() == crate::sst_table::separator_at(
                self.bytewise,
                v1.blocks,
                i,
            ) by {
                if i < v0.index.len() {
                    assert(v1.index[i] == v0.index[i]);
                }
            }
        }
    }

    /// The index of a finished table, and its smallest key.
    pub fn index(&self) -> (r: (&Vec<IndexEntry>, Option<&Vec<u8>>))
        ensures
            crate::sst_index::index_views(r.0@) == self@.index,
            match r.1 {
                None => self@.min_key is None,
                Some(k) => self@.min_key == Some(k@),
            },
    {
        (
            &self.index,
            match &self.min_key {
                None => None,
                Some(k) => Some(k),
            },
        )
    }

    /// The fields of the footer, given where the other blocks stand.
    pub fn footer(&self, index: BlockHandle, bloom: Option<BlockHandle>, aux: Option<BlockHandle>) -> (r: FooterFields)
        ensures
            r == (FooterFields {
                index,
                bloom,
                num_entries: self@.num_entries,
                max_seq: self@.max_seq,
                btree: self.options().use_btree,
                caps: caps_of(self.options(), self@),
                aux,
            }),
    {
        let e: u64 = if self.opts.extended_entries || self.opts.prefix_delta { crate::format::CAP_EXTENDED_RECORDS } else { 0 };
        let d: u64 = if self.opts.prefix_delta { crate::format::CAP_PREFIX_DELTA } else { 0 };
        let m: u64 = if self.wrote_merge { crate::format::CAP_MERGE_OPERANDS } else { 0 };
        let g: u64 = if self.range_fragments.len() > 0 { crate::format::CAP_RANGE_DELETES } else { 0 };
        FooterFields {
            index,
            bloom,
            num_entries: self.num_entries,
            max_seq: self.max_seq,
            btree: self.opts.use_btree,
            caps: e | d | m | g,
            aux,
        }
    }

    /// What is known of the finished table, given how long its files are.
    pub fn meta(&self, klog_size: u64, vlog_size: u64) -> (r: FileMeta)
        ensures
            r.id == 0,
            r.min_key@ == (match self@.min_key {
                None => Seq::empty(),
                Some(k) => k,
            }),
            r.max_key@ == self@.last_key,
            r.num_entries == self@.num_entries,
            r.num_tombstones == self@.num_tombstones,
            r.max_seq == self@.max_seq,
            r.klog_size == klog_size,
            r.vlog_size == vlog_size,
            summarizes(r, self@.fragments),
    {
        let (min_seq, max_seq) = fragment_seqs(&self.range_fragments);
        let n = self.range_fragments.len();
        let min_key = match &self.min_key {
            None => Vec::new(),
            Some(k) => copy_bytes(k.as_slice()),
        };
        let (range_min_key, range_max_key) = if n == 0 {
            (None, None)
        } else {
            (
                Some(copy_bytes(self.range_fragments[0].start.as_slice())),
                Some(copy_bytes(self.range_fragments[n - 1].end.as_slice())),
            )
        };
        assert(min_key@ =~= (match self@.min_key {
            None => Seq::empty(),
            Some(k) => k,
        }));
        FileMeta {
            id: 0,
            min_key,
            max_key: copy_bytes(self.last_key.as_slice()),
            num_entries: self.num_entries,
            num_tombstones: self.num_tombstones,
            max_seq: self.max_seq,
            klog_size,
            vlog_size,
            range_count: n as u64,
            range_min_seq: min_seq,
            range_max_seq: max_seq,
            range_min_key,
            range_max_key,
        }
    }
}

proof fn lemma_index_grows(bytewise: bool, v: WriterView, r: Row, codec: u8)
    requires
        index_so_far(bytewise, v),
        !v.taken,
    ensures
        index_so_far(bytewise, added(bytewise, v, r, codec)),
{
    let n = added(bytewise, v, r, codec);
    let a0 = all_blocks(v);
    let a1 = all_blocks(n);
    assert(n.rows.len() > 0);
    assert(a1.last() == n.rows);
    assert forall|i: int| 0 <= i < n.index.len() && i + 1 < a1.len() implies (#[trigger] n.index[i]).place() == crate::sst_index::settled(
        bytewise,
        a1[i].last().key,
        a1[i].last().seq,
        a1[i + 1][0].key,
    ) by {
        assert(a1[i] == v.blocks[i]);
        if v.pending is Some && i == v.blocks.len() - 1 {
            assert(a1[i + 1] == n.rows);
            assert(n.rows[0] == r);
        } else {
            assert(n.index[i] == v.index[i]);
            assert(a0[i] == a1[i]);
            if i + 1 < v.blocks.len() {
                assert(a0[i + 1] == a1[i + 1]);
            } else {
                assert(v.rows.len() > 0);
                assert(a0[i + 1] == v.rows);
                assert(n.rows[0] == v.rows[0]);
            }
        }
    }
}

/// Whether a sequence occurs in a fragment.
pub open spec fn has_seq(fs: Seq<crate::range_tombstone::FragmentView>, s: u64) -> bool {
    exists|i: int, j: int| 0 <= i < fs.len() && 0 <= j < fs[i].seqs.len() && #[trigger] fs[i].seqs[j] == s
}

/// Whether the metadata of a table sums up its fragments: how many there are,
/// their least and greatest sequence, where they begin and where they end.
pub open spec fn summarizes(m: FileMeta, fs: Seq<crate::range_tombstone::FragmentView>) -> bool {
    &&& m.range_count == fs.len()
    &&& is_least(fs, m.range_min_seq)
    &&& is_greatest(fs, m.range_max_seq)
    &&& opt_bytes(m.range_min_key) == (if fs.len() == 0 { None } else { Some(fs[0].start) })
    &&& opt_bytes(m.range_max_key) == (if fs.len() == 0 { None } else { Some(fs.last().end) })
}

/// The least sequence of any fragment; 0 where there is none.
pub open spec fn is_least(fs: Seq<crate::range_tombstone::FragmentView>, s: u64) -> bool {
    &&& has_seq(fs, s) || (s == 0 && forall|x: u64| !#[trigger] has_seq(fs, x))
    &&& forall|x: u64| #[trigger] has_seq(fs, x) ==> s <= x
}

/// The greatest sequence of any fragment; 0 where there is none.
pub open spec fn is_greatest(fs: Seq<crate::range_tombstone::FragmentView>, s: u64) -> bool {
    &&& has_seq(fs, s) || (s == 0 && forall|x: u64| !#[trigger] has_seq(fs, x))
    &&& forall|x: u64| #[trigger] has_seq(fs, x) ==> x <= s
}

spec fn seqs_within(s: Seq<u64>, any: bool, lo: u64, hi: u64) -> bool {
    forall|b: int| 0 <= b < s.len() ==> any && lo <= #[trigger] s[b] <= hi
}

fn fragment_seqs(frags: &Vec<Fragment>) -> (r: (u64, u64))
    ensures
        is_least(crate::range_tombstone::fragment_views(frags@), r.0),
        is_greatest(crate::range_tombstone::fragment_views(frags@), r.1),
{
    let ghost fs = crate::range_tombstone::fragment_views(frags@);
    let mut lo: u64 = 0;
    let mut hi: u64 = 0;
    let mut any = false;
    let mut i: usize = 0;
    while i < frags.len()
        invariant
            i <= frags@.len(),
            fs == crate::range_tombstone::fragment_views(frags@),
            any ==> has_seq(fs, lo) && has_seq(fs, hi),
            !any ==> lo == 0 && hi == 0,
            forall|a: int| 0 <= a < i ==> seqs_within((#[trigger] fs[a]).seqs, any, lo, hi),
        decreases frags@.len() - i,
    {
        let mut j: usize = 0;
        while j < frags[i].seqs.len()
            invariant
                i < frags@.len(),
                j <= frags@[i as int].seqs@.len(),
                fs == crate::range_tombstone::fragment_views(frags@),
                any ==> has_seq(fs, lo) && has_seq(fs, hi),
                !any ==> lo == 0 && hi == 0,
                forall|a: int| 0 <= a < i ==> seqs_within((#[trigger] fs[a]).seqs, any, lo, hi),
                forall|b: int| 0 <= b < j ==> any && lo <= #[trigger] fs[i as int].seqs[b] <= hi,
            decreases frags@[i as int].seqs@.len() - j,
        {
            let s = frags[i].seqs[j];
            assert(fs[i as int].seqs[j as int] == s);
            assert(has_seq(fs, s));
            if !any || s < lo {
                lo = s;
            }
            if !any || s > hi {
                hi = s;
            }
            any = true;
            j += 1;
        }
        assert(fs[i as int].seqs.len() == frags@[i as int].seqs@.len());
        i += 1;
    }
    proof {
        assert forall|x: u64| #[trigger] has_seq(fs, x) implies any && lo <= x <= hi by {
            let (a, b) = choose|a: int, b: int| 0 <= a < fs.len() && 0 <= b < fs[a].seqs.len() && #[trigger] fs[a].seqs[b] == x;
            assert(seqs_within(fs[a].seqs, any, lo, hi));
        }
    }
    (lo, hi)
}

/// The footer of a finished table can be read back, once the blocks that it
/// points to stand before it: what asks for the extended layout is in a table
/// of that layout alone.
pub proof fn lemma_footer_is_readable(opts: WriterOptions, v: WriterView, f: FooterFields, limit: int)
    requires
        v.merges ==> opts.extended(),
        v.fragments.len() > 0 ==> opts.extended(),
        f.caps == caps_of(opts, v),
        crate::sst_format::within(f.index, limit),
        f.bloom matches Some(h) ==> crate::sst_format::within(h, limit) && h.length > 0,
        f.aux matches Some(h) ==> crate::sst_format::within(h, limit) && h.length > 0,
    ensures
        crate::sst_format::footer_fits(f, limit),
{
    let e: u64 = if opts.extended() { crate::format::CAP_EXTENDED_RECORDS } else { 0 };
    let d: u64 = if opts.prefix_delta { crate::format::CAP_PREFIX_DELTA } else { 0 };
    let m: u64 = if v.merges { crate::format::CAP_MERGE_OPERANDS } else { 0 };
    let r: u64 = if v.fragments.len() > 0 { crate::format::CAP_RANGE_DELETES } else { 0 };
    let c = e | d | m | r;
    assert(c & !0x1Eu64 == 0 && (c & !2u64 != 0 ==> c & 2u64 != 0)) by (bit_vector)
        requires
            c == e | d | m | r,
            e == 2 || (e == 0 && d == 0 && m == 0 && r == 0),
            d == 0 || d == 4,
            m == 0 || m == 8,
            r == 0 || r == 16,
    ;
}

/// A merge operand is taken by a table of the extended layout alone, so a table
/// that holds one is of that layout.
pub proof fn lemma_merges_are_extended(bytewise: bool, opts: WriterOptions, v: WriterView, r: Row, codec: u8)
    requires
        v.merges ==> opts.extended(),
        takes(opts, r.kind),
    ensures
        added(bytewise, v, r, codec).merges ==> opts.extended(),
{
}

// ---------------------------------------------------------------------------
// What adding a row does
// ---------------------------------------------------------------------------

/// Adding a row puts it behind the rows of the block, with the key, sequence,
/// time to live, kind and place in the value log that were given, and the value
/// unless it is a deletion. It counts one entry more, one deletion more where
/// it is one, and leaves the finished blocks alone.
pub proof fn lemma_adding_keeps_what_was_given(
    bytewise: bool,
    v: WriterView,
    key: Seq<u8>,
    value: Seq<u8>,
    seq: u64,
    ttl: i64,
    kind: u64,
    logged: Option<u64>,
    codec: u8,
)
    requires
        v.num_tombstones <= v.num_entries < u64::MAX,
    ensures
        ({
            let n = added(bytewise, v, row_for(key, value, seq, ttl, kind, logged), codec);
            let deletion = kind == crate::format::KIND_DELETE || kind == crate::format::KIND_SINGLE_DELETE;
            let row = n.rows[v.rows.len() as int];
            &&& n.rows.len() == v.rows.len() + 1
            &&& n.rows.take(v.rows.len() as int) == v.rows
            &&& row.key == key
            &&& row.seq == seq
            &&& row.ttl == ttl
            &&& row.kind == kind
            &&& row.logged == logged
            &&& deletion ==> row.value.len() == 0
            &&& !deletion ==> row.value == value
            &&& n.blocks == v.blocks
            &&& n.num_entries == v.num_entries + 1
            &&& deletion ==> n.num_tombstones == v.num_tombstones + 1
            &&& !deletion ==> n.num_tombstones == v.num_tombstones
            &&& n.max_seq >= v.max_seq && n.max_seq >= seq && (n.max_seq == v.max_seq || n.max_seq == seq)
            &&& v.min_key is None ==> n.min_key == Some(key)
            &&& v.min_key is Some ==> n.min_key == v.min_key
            &&& n.last_key == key
            &&& n.last_seq == seq
            &&& n.merges <==> v.merges || kind == KIND_MERGE
            &&& v.rows.len() == 0 ==> n.codec == codec
            &&& v.rows.len() > 0 ==> n.codec == v.codec
            &&& n.fragments == v.fragments
            &&& n.klog_off == v.klog_off
            &&& n.vlog_off == v.vlog_off
            &&& n.taken == v.taken
            &&& n.pending is None
        }),
{
    let n = added(bytewise, v, row_for(key, value, seq, ttl, kind, logged), codec);
    assert(n.rows.take(v.rows.len() as int) =~= v.rows);
}

/// What was added is what a point read of its block, at its key and sequence,
/// tells of: gone if and only if the kind is a deletion or the time to live has
/// run out, wherever the value is kept.
pub proof fn lemma_added_row_is_read_back<C: Comparator>(
    ord: C,
    c: Codec,
    interval: int,
    v: WriterView,
    key: Seq<u8>,
    value: Seq<u8>,
    seq: u64,
    ttl: i64,
    kind: u64,
    logged: Option<u64>,
    codec: u8,
    now: i64,
    h: crate::sst_block::PointHit,
)
    requires
        interval > 0,
        ({
            let rows = added(c.bytewise, v, row_for(key, value, seq, ttl, kind, logged), codec).rows;
            &&& crate::sst_build::rows_ascend(ord, rows)
            &&& crate::sst_table::block_fits(c, interval, rows)
            &&& crate::sst_block::split_parts(crate::sst_table::block_of(c, interval, rows), c.delta) matches Some((raw, restarts))
                && (crate::sst_block::block_ok(ord, c, raw, restarts) ==> crate::sst_block::tells(
                h,
                crate::sst_block::find_point(ord, c, raw, 0, Seq::empty(), (key, seq))->Ok_0,
                now,
            ))
        }),
    ensures
        h.found,
        h.seq == seq,
        h.kind == kind,
        h.deleted <==> kind == crate::format::KIND_DELETE || kind == crate::format::KIND_SINGLE_DELETE || (ttl != 0 && ttl <= now),
        h.value is None <==> h.deleted,
        !h.deleted && logged is None ==> (h.value matches Some(crate::sst_block::StoredValue::Inline(x)) && x@ == value),
        !h.deleted && logged is Some ==> (h.value matches Some(crate::sst_block::StoredValue::Logged(off, len)) && off == logged->0 && (
        value.len() <= usize::MAX ==> len == value.len())),
{
    let rows = added(c.bytewise, v, row_for(key, value, seq, ttl, kind, logged), codec).rows;
    crate::sst_table::lemma_row_is_read_back(ord, c, interval, rows, rows.len() - 1, now, h);
}

/// A table asks of its readers the extended layout where it has it, shared
/// prefixes where it stores them, merge operands where it holds one and range
/// deletes where it holds one; and nothing else.
pub proof fn lemma_footer_asks_for_what_is_there(opts: WriterOptions, v: WriterView)
    ensures
        caps_of(opts, v) & crate::format::CAP_EXTENDED_RECORDS != 0 <==> opts.extended_entries || opts.prefix_delta,
        caps_of(opts, v) & crate::format::CAP_PREFIX_DELTA != 0 <==> opts.prefix_delta,
        caps_of(opts, v) & crate::format::CAP_MERGE_OPERANDS != 0 <==> v.merges,
        caps_of(opts, v) & crate::format::CAP_RANGE_DELETES != 0 <==> v.fragments.len() > 0,
        caps_of(opts, v) & !0x1Eu64 == 0,
{
    let e: u64 = if opts.extended() { crate::format::CAP_EXTENDED_RECORDS } else { 0 };
    let d: u64 = if opts.prefix_delta { crate::format::CAP_PREFIX_DELTA } else { 0 };
    let m: u64 = if v.merges { crate::format::CAP_MERGE_OPERANDS } else { 0 };
    let r: u64 = if v.fragments.len() > 0 { crate::format::CAP_RANGE_DELETES } else { 0 };
    let c = e | d | m | r;
    assert((c & 2 != 0 <==> e == 2) && (c & 4 != 0 <==> d == 4) && (c & 8 != 0 <==> m == 8) && (c & 16 != 0 <==> r == 16) && c & !0x1Eu64
        == 0) by (bit_vector)
        requires
            c == e | d | m | r,
            e == 0 || e == 2,
            d == 0 || d == 4,
            m == 0 || m == 8,
            r == 0 || r == 16,
    ;
}

/// A table takes puts and deletions always, merge operands and range deletes in
/// the extended layout alone, and nothing else.
pub proof fn lemma_which_kinds_are_taken(opts: WriterOptions, kind: u64)
    ensures
        kind == crate::format::KIND_PUT || kind == crate::format::KIND_DELETE || kind == crate::format::KIND_SINGLE_DELETE ==> takes(opts, kind),
        kind == KIND_MERGE || kind == crate::format::KIND_RANGE_DELETE ==> (takes(opts, kind) <==> opts.extended_entries || opts.prefix_delta),
        kind == 0 || kind > crate::format::KIND_RANGE_DELETE ==> !takes(opts, kind),
{
}

/// What the table says of its fragments: how many there are, between which
/// sequences they delete, and the ends of what they cover.
pub proof fn lemma_summary_is_of_the_fragments(m: FileMeta, fs: Seq<crate::range_tombstone::FragmentView>, i: int, k: int)
    requires
        summarizes(m, fs),
        fs.len() <= u64::MAX,
        0 <= i < fs.len(),
        0 <= k < fs[i].seqs.len(),
    ensures
        m.range_count == fs.len(),
        m.range_min_seq <= fs[i].seqs[k] <= m.range_max_seq,
        m.range_min_key matches Some(s) && s@ == fs[0].start,
        m.range_max_key matches Some(e) && e@ == fs.last().end,
{
    assert(has_seq(fs, fs[i].seqs[k])) by {
        assert(fs[i].seqs.contains(fs[i].seqs[k]));
    }
}

/// A table without fragments says nothing of any.
pub proof fn lemma_summary_of_no_fragments(m: FileMeta)
    requires
        summarizes(m, Seq::empty()),
    ensures
        m.range_count == 0,
        m.range_min_seq == 0,
        m.range_max_seq == 0,
        m.range_min_key is None,
        m.range_max_key is None,
{
}

/// The sequences told of the fragments occur in them.
pub proof fn lemma_summary_sequences_occur(m: FileMeta, fs: Seq<crate::range_tombstone::FragmentView>, i: int, k: int)
    requires
        summarizes(m, fs),
        0 <= i < fs.len(),
        0 <= k < fs[i].seqs.len(),
    ensures
        exists|a: int, b: int| 0 <= a < fs.len() && 0 <= b < fs[a].seqs.len() && #[trigger] fs[a].seqs[b] == m.range_min_seq,
        exists|a: int, b: int| 0 <= a < fs.len() && 0 <= b < fs[a].seqs.len() && #[trigger] fs[a].seqs[b] == m.range_max_seq,
{
    assert(has_seq(fs, fs[i].seqs[k]));
}

/// The separator of a block that waits joins the index when the next row comes,
/// with the place of the block; nothing else joins it.
pub proof fn lemma_waiting_separator_joins_the_index(bytewise: bool, v: WriterView, row: Row, codec: u8)
    ensures
        v.pending is None ==> added(bytewise, v, row, codec).index == v.index,
        v.pending matches Some(p) ==> {
            let index = added(bytewise, v, row, codec).index;
            &&& index.len() == v.index.len() + 1
            &&& index.drop_last() == v.index
            &&& index.last().handle == p.handle
            &&& index.last().place() == crate::sst_index::settled(bytewise, p.key, p.seq, row.key)
        },
{
    if let Some(p) = v.pending {
        assert(added(bytewise, v, row, codec).index.drop_last() =~= v.index);
    }
}

/// What is not set takes its usual value: values of so many bytes go to the
/// value log, and blocks are so long.
pub proof fn lemma_unset_options_are_the_usual(opts: WriterOptions)
    ensures
        opts.klog_value_threshold == 0 ==> opts.threshold() == 512,
        opts.klog_value_threshold != 0 ==> opts.threshold() == opts.klog_value_threshold,
        opts.block_size == 0 ==> opts.target() == 4096,
        opts.block_size != 0 ==> opts.target() == opts.block_size,
        opts.extended() <==> opts.extended_entries || opts.prefix_delta,
{
}

} // verus!
