//! The fixed parts of a table's files: footer, value-log header, metadata.

use vstd::prelude::*;
use vstd::string::{StrSliceExecFns, StringExecFns};

use crate::encoding::{append_slice, append_u32, append_u64, bytes_eq, checksum, copy_bytes, read_u32_at, read_u64_at};
use crate::error::OndaError;
use crate::format::{check_caps, Fault};
use crate::manifest::{copy_opt_key, SstMeta};
use crate::sst_entry::EntryLayout;
use crate::text::with_number;

verus! {

/// How long a footer is.
pub const FOOTER_SIZE: usize = 96;
/// Entries from one restart anchor to the next, unless chosen otherwise.
pub const RESTART_INTERVAL: usize = 8;
/// The size at which a block is cut, unless chosen otherwise.
pub const DEFAULT_BLOCK_SIZE: usize = 4096;
/// How long the header of a value-log frame is: checksum, codec, length.
pub const VLOG_FRAME_HDR_LEN: usize = 9;
/// How long the header of a value log is.
pub const VLOG_HEADER_LEN: usize = 32;

/// `YOLOST01`
pub const FOOTER_MAGIC: [u8; 8] = [0x59, 0x4F, 0x4C, 0x4F, 0x53, 0x54, 0x30, 0x31];
/// The last eight bytes of a table of the previous format family, as a number.
pub const OLD_FOOTER_MAGIC: u64 = 0x5741_5645_5353_5431;
/// The version of the footer.
pub const FOOTER_VERSION: u32 = 1;
/// The table has a filter.
pub const FLAG_BLOOM: u32 = 0x01;
/// The index is a tree.
pub const FLAG_BTREE: u32 = 0x02;
/// Every footer flag that has a meaning.
pub const FOOTER_FLAGS_KNOWN: u32 = 0x03;
/// The capabilities that a table can need: extended records, prefix-delta
/// blocks, merge operands, range deletes.
pub const TABLE_CAPS: u64 = 0x1E;

/// `YOLODBVL`
pub const VLOG_MAGIC: [u8; 8] = [0x59, 0x4F, 0x4C, 0x4F, 0x44, 0x42, 0x56, 0x4C];
/// The version of the value log.
pub const VLOG_VERSION: u32 = 1;

/// Where a block stands in a file, and how long it is there.
#[derive(Debug, Clone, Copy, PartialEq, Eq, Structural)]
pub struct BlockHandle {
    pub offset: u64,
    pub length: u64,
}

/// What a writer puts into a footer.
#[derive(Debug, Clone, Copy)]
pub struct FooterFields {
    pub index: BlockHandle,
    /// Nothing for a table without a filter.
    pub bloom: Option<BlockHandle>,
    pub num_entries: u64,
    pub max_seq: u64,
    pub btree: bool,
    pub caps: u64,
    pub aux: Option<BlockHandle>,
}

/// What a footer says.
#[derive(Debug, Clone, Copy)]
pub struct TableFooter {
    pub index: BlockHandle,
    /// Nothing for a table without a filter.
    pub bloom: Option<BlockHandle>,
    pub num_entries: u64,
    pub max_seq: u64,
    pub btree: bool,
    pub caps: u64,
    /// Of length 0 for a table without auxiliary sections.
    pub aux: BlockHandle,
}

impl TableFooter {
    /// How the table's entries are laid out.
    pub fn entry_layout(&self) -> (r: EntryLayout)
        ensures
            r == (if self.caps & crate::format::CAP_EXTENDED_RECORDS != 0 { EntryLayout::Extended } else { EntryLayout::Base }),
    {
        if self.caps & crate::format::CAP_EXTENDED_RECORDS != 0 {
            EntryLayout::Extended
        } else {
            EntryLayout::Base
        }
    }

    /// Whether the table's blocks are prefix-delta blocks.
    pub fn prefix_delta(&self) -> (r: bool)
        ensures
            r == (self.caps & crate::format::CAP_PREFIX_DELTA != 0),
    {
        self.caps & crate::format::CAP_PREFIX_DELTA != 0
    }
}

// ---------------------------------------------------------------------------
// The footer
// ---------------------------------------------------------------------------

pub open spec fn no_block() -> BlockHandle {
    BlockHandle { offset: 0, length: 0 }
}

pub open spec fn or_none(h: Option<BlockHandle>) -> BlockHandle {
    match h {
        Some(x) => x,
        None => no_block(),
    }
}

pub open spec fn handle_wire(h: BlockHandle) -> Seq<u8> {
    crate::encoding::le_bytes(h.offset as nat, 8) + crate::encoding::le_bytes(h.length as nat, 8)
}

pub open spec fn footer_flags(f: FooterFields) -> u32 {
    let a: u32 = if f.bloom is Some { FLAG_BLOOM } else { 0 };
    let b: u32 = if f.btree { FLAG_BTREE } else { 0 };
    a | b
}

/// What the checksum of a footer covers.
pub open spec fn footer_head(f: FooterFields) -> Seq<u8> {
    handle_wire(f.index) + handle_wire(or_none(f.bloom)) + crate::encoding::le_bytes(f.num_entries as nat, 8) + crate::encoding::le_bytes(
        f.max_seq as nat,
        8,
    ) + crate::encoding::le_bytes(footer_flags(f) as nat, 4) + crate::encoding::le_bytes(FOOTER_VERSION as nat, 4)
        + crate::encoding::le_bytes(f.caps as nat, 8) + handle_wire(or_none(f.aux))
}

/// A footer as bytes.
pub open spec fn footer_wire(f: FooterFields) -> Seq<u8> {
    footer_head(f) + crate::encoding::le_bytes(crate::encoding::crc32c(footer_head(f)) as nat, 4) + crate::encoding::le_bytes(0, 4)
        + FOOTER_MAGIC@
}

fn append_handle(b: &mut Vec<u8>, h: BlockHandle)
    ensures
        final(b)@ == old(b)@ + handle_wire(h),
{
    let ghost b0 = b@;
    append_u64(b, h.offset);
    append_u64(b, h.length);
    assert(b@ =~= b0 + handle_wire(h));
}

fn handle_or_none(h: Option<BlockHandle>) -> (r: BlockHandle)
    ensures
        r == or_none(h),
{
    match h {
        Some(x) => x,
        None => BlockHandle { offset: 0, length: 0 },
    }
}

/// The bytes of a footer.
pub fn encode_footer(f: &FooterFields) -> (r: Vec<u8>)
    ensures
        r@ == footer_wire(*f),
{
    let mut b: Vec<u8> = Vec::new();
    append_handle(&mut b, f.index);
    append_handle(&mut b, handle_or_none(f.bloom));
    append_u64(&mut b, f.num_entries);
    append_u64(&mut b, f.max_seq);
    let x: u32 = if f.bloom.is_some() { FLAG_BLOOM } else { 0 };
    let y: u32 = if f.btree { FLAG_BTREE } else { 0 };
    append_u32(&mut b, x | y);
    append_u32(&mut b, FOOTER_VERSION);
    append_u64(&mut b, f.caps);
    append_handle(&mut b, handle_or_none(f.aux));
    proof {
        assert(Seq::<u8>::empty() + handle_wire(f.index) =~= handle_wire(f.index));
        assert(b@ == footer_head(*f));
    }
    let crc = checksum(b.as_slice());
    append_u32(&mut b, crc);
    append_u32(&mut b, 0);
    append_slice(&mut b, FOOTER_MAGIC.as_slice());
    b
}

pub open spec fn u64_at(s: Seq<u8>, at: int) -> u64 {
    crate::encoding::le_value(s.subrange(at, at + 8)) as u64
}

pub open spec fn u32_at(s: Seq<u8>, at: int) -> u32 {
    crate::encoding::le_value(s.subrange(at, at + 4)) as u32
}

pub open spec fn handle_at(s: Seq<u8>, at: int) -> BlockHandle {
    BlockHandle { offset: u64_at(s, at), length: u64_at(s, at + 8) }
}

/// Whether a block stands before `limit`.
pub open spec fn within(h: BlockHandle, limit: int) -> bool {
    h.offset + h.length <= limit
}

/// What the 96 bytes of a footer say, in a file with `limit` bytes before it.
pub open spec fn parse_footer_bytes(b: Seq<u8>, limit: int) -> Result<TableFooter, Fault> {
    let flags = u32_at(b, 48);
    let caps = u64_at(b, 56);
    let index = handle_at(b, 0);
    let bloom = handle_at(b, 16);
    let aux = handle_at(b, 64);
    if u32_at(b, 52) != FOOTER_VERSION {
        Err(Fault::Unsupported)
    } else if u32_at(b, 80) != crate::encoding::crc32c(b.take(80)) || u32_at(b, 84) != 0 {
        Err(Fault::Corrupt)
    } else if flags & !FOOTER_FLAGS_KNOWN != 0 || !crate::format::caps_known(caps) {
        Err(Fault::Unsupported)
    } else if caps & !TABLE_CAPS != 0 || (caps & !crate::format::CAP_EXTENDED_RECORDS != 0 && caps & crate::format::CAP_EXTENDED_RECORDS == 0) {
        Err(Fault::Corrupt)
    } else if !within(index, limit) || !within(bloom, limit) || !within(aux, limit) {
        Err(Fault::Corrupt)
    } else if (flags & FLAG_BLOOM != 0) != (bloom.length > 0) || (flags & FLAG_BLOOM == 0 && bloom.offset != 0) {
        Err(Fault::Corrupt)
    } else if aux.length == 0 && aux.offset != 0 {
        Err(Fault::Corrupt)
    } else {
        Ok(TableFooter {
            index,
            bloom: if flags & FLAG_BLOOM != 0 { Some(bloom) } else { None },
            num_entries: u64_at(b, 32),
            max_seq: u64_at(b, 40),
            btree: flags & FLAG_BTREE != 0,
            caps,
            aux,
        })
    }
}

/// What the footer says at the end of a file of `file_len` bytes, of which
/// `tail` are the last.
pub open spec fn parse_footer(tail: Seq<u8>, file_len: int) -> Result<TableFooter, Fault> {
    let n = tail.len() as int;
    if n < 8 || file_len < n {
        Err(Fault::Corrupt)
    } else if tail.skip(n - 8) != FOOTER_MAGIC@ {
        if u64_at(tail, n - 8) == OLD_FOOTER_MAGIC { Err(Fault::Unsupported) } else { Err(Fault::Corrupt) }
    } else if n < FOOTER_SIZE {
        Err(Fault::Corrupt)
    } else {
        parse_footer_bytes(tail.skip(n - FOOTER_SIZE), file_len - FOOTER_SIZE)
    }
}

fn corrupt(what: &str) -> (r: OndaError)
    ensures
        r is Corruption,
{
    OndaError::Corruption(crate::text::join3("sst footer: ", what, ""))
}

fn read_handle(b: &[u8], at: usize) -> (r: BlockHandle)
    requires
        at + 16 <= b@.len(),
    ensures
        r == handle_at(b@, at as int),
{
    let n = b.len();
    BlockHandle { offset: read_u64_at(b, at), length: read_u64_at(b, at + 8) }
}

fn fits(h: BlockHandle, limit: u64) -> (r: bool)
    ensures
        r == within(h, limit as int),
{
    h.offset <= limit && h.length <= limit - h.offset
}

/// Read the footer at the end of a file of `file_len` bytes, of which `tail`
/// are the last.
pub fn decode_footer(tail: &[u8], file_len: u64) -> (r: Result<TableFooter, OndaError>)
    ensures
        match parse_footer(tail@, file_len as int) {
            Ok(f) => r == Ok::<TableFooter, OndaError>(f),
            Err(f) => r is Err && crate::format::reports(r->Err_0, f),
        },
{
    let n = tail.len();
    if n < 8 || file_len < n as u64 {
        return Err(corrupt("file shorter than a footer"));
    }
    let (_, last8) = tail.split_at(n - 8);
    proof {
        assert(last8@ =~= tail@.skip(n - 8));
        assert(last8@.take(8) =~= tail@.subrange(n - 8, n as int));
    }
    if !bytes_eq(last8, FOOTER_MAGIC.as_slice()) {
        if read_u64_at(last8, 0) == OLD_FOOTER_MAGIC {
            return Err(OndaError::UnsupportedFormat(with_number("sst: a table of the previous format family, footer magic ", OLD_FOOTER_MAGIC, "")));
        }
        return Err(corrupt("magic is not YOLOST01"));
    }
    if n < FOOTER_SIZE {
        return Err(corrupt("file shorter than a footer"));
    }
    let (_, b) = tail.split_at(n - FOOTER_SIZE);
    assert(b@ =~= tail@.skip(n - FOOTER_SIZE));
    let version = read_u32_at(b, 52);
    if version != FOOTER_VERSION {
        return Err(OndaError::UnsupportedFormat(with_number("sst footer format version ", version as u64, " is not implemented")));
    }
    let (head, _) = b.split_at(80);
    assert(head@ =~= b@.take(80));
    if read_u32_at(b, 80) != checksum(head) {
        return Err(corrupt("checksum mismatch"));
    }
    if read_u32_at(b, 84) != 0 {
        return Err(corrupt("reserved word is not zero"));
    }
    let flags = read_u32_at(b, 48);
    if flags & !FOOTER_FLAGS_KNOWN != 0 {
        return Err(OndaError::UnsupportedFormat(with_number("sst footer flags ", flags as u64, " hold an unknown bit")));
    }
    let caps = read_u64_at(b, 56);
    check_caps(caps)?;
    if caps & !TABLE_CAPS != 0 {
        return Err(corrupt("capability word names a database-level bit"));
    }
    if caps & !crate::format::CAP_EXTENDED_RECORDS != 0 && caps & crate::format::CAP_EXTENDED_RECORDS == 0 {
        return Err(corrupt("capability without extended records"));
    }
    let limit = file_len - FOOTER_SIZE as u64;
    let index = read_handle(b, 0);
    let bloom = read_handle(b, 16);
    let aux = read_handle(b, 64);
    if !fits(index, limit) || !fits(bloom, limit) || !fits(aux, limit) {
        return Err(corrupt("handle past the end of the file"));
    }
    let has_bloom = flags & FLAG_BLOOM != 0;
    if has_bloom != (bloom.length > 0) || (!has_bloom && bloom.offset != 0) {
        return Err(corrupt("bloom flag disagrees with the bloom handle"));
    }
    if aux.length == 0 && aux.offset != 0 {
        return Err(corrupt("empty aux handle with an offset"));
    }
    Ok(
        TableFooter {
            index,
            bloom: if has_bloom { Some(bloom) } else { None },
            num_entries: read_u64_at(b, 32),
            max_seq: read_u64_at(b, 40),
            btree: flags & FLAG_BTREE != 0,
            caps,
            aux,
        },
    )
}

/// Whether a footer can describe a table with `limit` bytes before it.
pub open spec fn footer_fits(f: FooterFields, limit: int) -> bool {
    &&& within(f.index, limit)
    &&& f.bloom matches Some(h) ==> within(h, limit) && h.length > 0
    &&& f.aux matches Some(h) ==> within(h, limit) && h.length > 0
    &&& f.caps & !TABLE_CAPS == 0
    &&& f.caps & !crate::format::CAP_EXTENDED_RECORDS != 0 ==> f.caps & crate::format::CAP_EXTENDED_RECORDS != 0
}

proof fn lemma_number8(s: Seq<u8>, at: int, v: u64)
    requires
        s.subrange(at, at + 8) == crate::encoding::le_bytes(v as nat, 8),
    ensures
        u64_at(s, at) == v,
{
    crate::encoding::lemma_pow256();
    crate::encoding::lemma_le_round_trip(v as nat, 8);
}

pub proof fn lemma_number4(s: Seq<u8>, at: int, v: u32)
    requires
        s.subrange(at, at + 4) == crate::encoding::le_bytes(v as nat, 4),
    ensures
        u32_at(s, at) == v,
{
    crate::encoding::lemma_pow256();
    crate::encoding::lemma_le_round_trip(v as nat, 4);
}

proof fn lemma_handle(s: Seq<u8>, at: int, h: BlockHandle)
    requires
        0 <= at,
        at + 16 <= s.len(),
        s.subrange(at, at + 16) == handle_wire(h),
    ensures
        handle_at(s, at) == h,
{
    let w = handle_wire(h);
    crate::encoding::lemma_le_bytes_len(h.offset as nat, 8);
    crate::encoding::lemma_le_bytes_len(h.length as nat, 8);
    assert(s.subrange(at, at + 8) =~= w.subrange(0, 8));
    assert(w.subrange(0, 8) =~= crate::encoding::le_bytes(h.offset as nat, 8));
    assert(s.subrange(at + 8, at + 16) =~= w.subrange(8, 16));
    assert(w.subrange(8, 16) =~= crate::encoding::le_bytes(h.length as nat, 8));
    lemma_number8(s, at, h.offset);
    lemma_number8(s, at + 8, h.length);
}

proof fn lemma_handle_len(h: BlockHandle)
    ensures
        handle_wire(h).len() == 16,
{
    crate::encoding::lemma_le_bytes_len(h.offset as nat, 8);
    crate::encoding::lemma_le_bytes_len(h.length as nat, 8);
}

/// What the numbers in a footer's bytes are.
proof fn lemma_footer_numbers(f: FooterFields)
    ensures
        footer_wire(f).len() == FOOTER_SIZE,
        footer_wire(f).skip(88) == FOOTER_MAGIC@,
        footer_wire(f).take(80) == footer_head(f),
        handle_at(footer_wire(f), 0) == f.index,
        handle_at(footer_wire(f), 16) == or_none(f.bloom),
        u64_at(footer_wire(f), 32) == f.num_entries,
        u64_at(footer_wire(f), 40) == f.max_seq,
        u32_at(footer_wire(f), 48) == footer_flags(f),
        u32_at(footer_wire(f), 52) == FOOTER_VERSION,
        u64_at(footer_wire(f), 56) == f.caps,
        handle_at(footer_wire(f), 64) == or_none(f.aux),
        u32_at(footer_wire(f), 80) == crate::encoding::crc32c(footer_head(f)),
        u32_at(footer_wire(f), 84) == 0,
{
    let p1 = handle_wire(f.index);
    let p2 = handle_wire(or_none(f.bloom));
    let p3 = crate::encoding::le_bytes(f.num_entries as nat, 8);
    let p4 = crate::encoding::le_bytes(f.max_seq as nat, 8);
    let p5 = crate::encoding::le_bytes(footer_flags(f) as nat, 4);
    let p6 = crate::encoding::le_bytes(FOOTER_VERSION as nat, 4);
    let p7 = crate::encoding::le_bytes(f.caps as nat, 8);
    let p8 = handle_wire(or_none(f.aux));
    let p9 = crate::encoding::le_bytes(crate::encoding::crc32c(footer_head(f)) as nat, 4);
    let p10 = crate::encoding::le_bytes(0, 4);
    let p11 = FOOTER_MAGIC@;
    lemma_handle_len(f.index);
    lemma_handle_len(or_none(f.bloom));
    lemma_handle_len(or_none(f.aux));
    crate::encoding::lemma_le_bytes_len(f.num_entries as nat, 8);
    crate::encoding::lemma_le_bytes_len(f.max_seq as nat, 8);
    crate::encoding::lemma_le_bytes_len(footer_flags(f) as nat, 4);
    crate::encoding::lemma_le_bytes_len(FOOTER_VERSION as nat, 4);
    crate::encoding::lemma_le_bytes_len(f.caps as nat, 8);
    crate::encoding::lemma_le_bytes_len(crate::encoding::crc32c(footer_head(f)) as nat, 4);
    crate::encoding::lemma_le_bytes_len(0, 4);
    let a2 = p1 + p2;
    let a3 = a2 + p3;
    let a4 = a3 + p4;
    let a5 = a4 + p5;
    let a6 = a5 + p6;
    let a7 = a6 + p7;
    let a8 = a7 + p8;
    let a9 = a8 + p9;
    let a10 = a9 + p10;
    let w = a10 + p11;
    assert(w == footer_wire(f));
    assert(a8 == footer_head(f));
    // Each shorter beginning is a beginning of the whole.
    assert(a10 =~= w.take(88));
    assert(a9 =~= w.take(84));
    assert(a8 =~= w.take(80));
    assert(a7 =~= w.take(64));
    assert(a6 =~= w.take(56));
    assert(a5 =~= w.take(52));
    assert(a4 =~= w.take(48));
    assert(a3 =~= w.take(40));
    assert(a2 =~= w.take(32));
    assert(w.skip(88) =~= p11);
    assert(w.subrange(0, 16) =~= p1) by {
        assert(w.subrange(0, 16) =~= a2.subrange(0, 16));
        assert(a2.subrange(0, 16) =~= p1);
    }
    assert(w.subrange(16, 32) =~= p2) by {
        assert(w.subrange(16, 32) =~= a2.subrange(16, 32));
        assert(a2.subrange(16, 32) =~= p2);
    }
    assert(w.subrange(32, 40) =~= p3) by {
        assert(w.subrange(32, 40) =~= a3.subrange(32, 40));
        assert(a3.subrange(32, 40) =~= p3);
    }
    assert(w.subrange(40, 48) =~= p4) by {
        assert(w.subrange(40, 48) =~= a4.subrange(40, 48));
        assert(a4.subrange(40, 48) =~= p4);
    }
    assert(w.subrange(48, 52) =~= p5) by {
        assert(w.subrange(48, 52) =~= a5.subrange(48, 52));
        assert(a5.subrange(48, 52) =~= p5);
    }
    assert(w.subrange(52, 56) =~= p6) by {
        assert(w.subrange(52, 56) =~= a6.subrange(52, 56));
        assert(a6.subrange(52, 56) =~= p6);
    }
    assert(w.subrange(56, 64) =~= p7) by {
        assert(w.subrange(56, 64) =~= a7.subrange(56, 64));
        assert(a7.subrange(56, 64) =~= p7);
    }
    assert(w.subrange(64, 80) =~= p8) by {
        assert(w.subrange(64, 80) =~= a8.subrange(64, 80));
        assert(a8.subrange(64, 80) =~= p8);
    }
    assert(w.subrange(80, 84) =~= p9) by {
        assert(w.subrange(80, 84) =~= a9.subrange(80, 84));
        assert(a9.subrange(80, 84) =~= p9);
    }
    assert(w.subrange(84, 88) =~= p10) by {
        assert(w.subrange(84, 88) =~= a10.subrange(84, 88));
        assert(a10.subrange(84, 88) =~= p10);
    }
    lemma_handle(w, 0, f.index);
    lemma_handle(w, 16, or_none(f.bloom));
    lemma_number8(w, 32, f.num_entries);
    lemma_number8(w, 40, f.max_seq);
    lemma_number4(w, 48, footer_flags(f));
    lemma_number4(w, 52, FOOTER_VERSION);
    lemma_number8(w, 56, f.caps);
    lemma_handle(w, 64, or_none(f.aux));
    lemma_number4(w, 80, crate::encoding::crc32c(footer_head(f)));
    lemma_number4(w, 84, 0);
}

/// A footer is read back as it was written, whatever stands before it.
pub proof fn lemma_footer_round_trip(f: FooterFields, before: Seq<u8>)
    requires
        footer_fits(f, before.len() as int),
    ensures
        parse_footer(before + footer_wire(f), (before.len() + FOOTER_SIZE) as int) == Ok::<TableFooter, Fault>(
            TableFooter {
                index: f.index,
                bloom: f.bloom,
                num_entries: f.num_entries,
                max_seq: f.max_seq,
                btree: f.btree,
                caps: f.caps,
                aux: or_none(f.aux),
            },
        ),
{
    let w = footer_wire(f);
    let s = before + w;
    lemma_footer_numbers(f);
    assert(s.skip(s.len() - FOOTER_SIZE) =~= w);
    assert(s.skip(s.len() - 8) =~= w.skip(88));
    let flags = footer_flags(f);
    let x: u32 = if f.bloom is Some { 1 } else { 0 };
    let y: u32 = if f.btree { 2 } else { 0 };
    let caps = f.caps;
    assert(flags & !0x03u32 == 0 && (flags & 0x01u32 != 0 <==> x == 1) && (flags & 0x02u32 != 0 <==> y == 2)) by (bit_vector)
        requires
            flags == x | y,
            x == 1u32 || x == 0u32,
            y == 2u32 || y == 0u32,
    ;
    assert(caps & !0x3Fu64 == 0) by (bit_vector)
        requires
            caps & !0x1Eu64 == 0,
    ;
}

// ---------------------------------------------------------------------------
// The header of a value log
// ---------------------------------------------------------------------------

pub open spec fn vlog_head() -> Seq<u8> {
    VLOG_MAGIC@ + crate::encoding::le_bytes(VLOG_VERSION as nat, 4) + crate::encoding::le_bytes(0, 8) + crate::encoding::le_bytes(0, 8)
}

/// The header of a value log as bytes.
pub open spec fn vlog_header_wire() -> Seq<u8> {
    vlog_head() + crate::encoding::le_bytes(crate::encoding::crc32c(vlog_head()) as nat, 4)
}

/// The header of a value log.
pub fn encode_vlog_header() -> (r: Vec<u8>)
    ensures
        r@ == vlog_header_wire(),
{
    let mut b = copy_bytes(VLOG_MAGIC.as_slice());
    append_u32(&mut b, VLOG_VERSION);
    append_u64(&mut b, 0);
    append_u64(&mut b, 0);
    let crc = checksum(b.as_slice());
    append_u32(&mut b, crc);
    b
}

pub open spec fn all_zero(s: Seq<u8>) -> bool {
    forall|i: int| 0 <= i < s.len() ==> s[i] == 0
}

/// Why the header at the front of a value log is refused, if it is.
pub open spec fn vlog_header_fault(b: Seq<u8>) -> Option<Fault> {
    if b.len() < VLOG_HEADER_LEN || b.take(8) != VLOG_MAGIC@ {
        Some(Fault::Corrupt)
    } else if u32_at(b, 8) != VLOG_VERSION {
        Some(Fault::Unsupported)
    } else if u32_at(b, 28) != crate::encoding::crc32c(b.take(28)) {
        Some(Fault::Corrupt)
    } else if u32_at(b, 12) != 0 {
        Some(Fault::Unsupported)
    } else if !all_zero(b.subrange(16, 28)) {
        Some(Fault::Corrupt)
    } else {
        None
    }
}

/// Check the header at the front of a value log.
pub fn check_vlog_header(b: &[u8]) -> (r: Result<(), OndaError>)
    ensures
        match vlog_header_fault(b@) {
            None => r is Ok,
            Some(f) => r is Err && crate::format::reports(r->Err_0, f),
        },
{
    if b.len() < VLOG_HEADER_LEN {
        return Err(OndaError::Corruption(crate::text::join3("vlog header: ", "file shorter than its header", "")));
    }
    let (front, _) = b.split_at(8);
    assert(front@ =~= b@.take(8));
    if !bytes_eq(front, VLOG_MAGIC.as_slice()) {
        return Err(OndaError::Corruption(crate::text::join3("vlog header: ", "magic is not YOLODBVL", "")));
    }
    let version = read_u32_at(b, 8);
    if version != VLOG_VERSION {
        return Err(OndaError::UnsupportedFormat(with_number("vlog header version ", version as u64, " is not implemented")));
    }
    let (head, _) = b.split_at(28);
    assert(head@ =~= b@.take(28));
    if read_u32_at(b, 28) != checksum(head) {
        return Err(OndaError::Corruption(crate::text::join3("vlog header: ", "checksum mismatch", "")));
    }
    let flags = read_u32_at(b, 12);
    if flags != 0 {
        return Err(OndaError::UnsupportedFormat(with_number("vlog header flags ", flags as u64, " are not implemented")));
    }
    let mut i: usize = 16;
    while i < 28
        invariant
            16 <= i <= 28,
            b@.len() >= VLOG_HEADER_LEN,
            b@.take(8) == VLOG_MAGIC@,
            u32_at(b@, 8) == VLOG_VERSION,
            u32_at(b@, 28) == crate::encoding::crc32c(b@.take(28)),
            u32_at(b@, 12) == 0,
            forall|j: int| 16 <= j < i ==> b@[j] == 0,
        decreases 28 - i,
    {
        if b[i] != 0 {
            assert(b@.subrange(16, 28)[i - 16] != 0);
            return Err(OndaError::Corruption(crate::text::join3("vlog header: ", "reserved bytes are not zero", "")));
        }
        i += 1;
    }
    assert forall|j: int| 0 <= j < 12 implies b@.subrange(16, 28)[j] == 0 by {
        assert(b@[j + 16] == 0);
    }
    Ok(())
}

/// A value log starts with a header that is accepted.
pub proof fn lemma_vlog_header_is_accepted(frames: Seq<u8>)
    ensures
        vlog_header_wire().len() == VLOG_HEADER_LEN,
        vlog_header_fault(vlog_header_wire() + frames) is None,
{
    let v = crate::encoding::le_bytes(VLOG_VERSION as nat, 4);
    let z = crate::encoding::le_bytes(0, 8);
    let c = crate::encoding::le_bytes(crate::encoding::crc32c(vlog_head()) as nat, 4);
    crate::encoding::lemma_le_bytes_len(VLOG_VERSION as nat, 4);
    crate::encoding::lemma_le_bytes_len(0, 8);
    crate::encoding::lemma_le_bytes_len(crate::encoding::crc32c(vlog_head()) as nat, 4);
    let h = vlog_head();
    let s = vlog_header_wire() + frames;
    assert(h == VLOG_MAGIC@ + v + z + z);
    assert(s.take(8) =~= VLOG_MAGIC@);
    assert(s.subrange(8, 12) =~= v);
    lemma_number4(s, 8, VLOG_VERSION);
    assert(s.take(28) =~= h);
    assert(s.subrange(28, 32) =~= c);
    lemma_number4(s, 28, crate::encoding::crc32c(vlog_head()));
    reveal_with_fuel(crate::encoding::le_bytes, 9);
    assert(z =~= seq![0u8, 0, 0, 0, 0, 0, 0, 0]);
    let z4 = crate::encoding::le_bytes(0, 4);
    assert(z4 =~= seq![0u8, 0, 0, 0]);
    assert(s.subrange(12, 16) =~= z4);
    lemma_number4(s, 12, 0);
    assert forall|j: int| 0 <= j < 12 implies s.subrange(16, 28)[j] == 0 by {
        assert(s.subrange(16, 28)[j] == h[16 + j]);
    }
}

// ---------------------------------------------------------------------------
// Names and metadata
// ---------------------------------------------------------------------------

/// Whether a text ends in `.klog`.
pub open spec fn ends_in_klog(s: Seq<char>) -> bool {
    s.len() >= 5 && s.skip(s.len() - 5) == ".klog"@
}

/// The path of the value log that belongs to a table.
pub open spec fn vlog_path_text(klog: Seq<char>) -> Seq<char> {
    if ends_in_klog(klog) { klog.take(klog.len() - 5) + ".vlog"@ } else { klog + ".vlog"@ }
}

/// The path of the value log that belongs to a table.
pub fn vlog_path_for(klog_path: &str) -> (r: String)
    ensures
        r@ == vlog_path_text(klog_path@),
{
    let n = klog_path.unicode_len();
    if n >= 5 {
        let end = klog_path.substring_char(n - 5, n);
        assert(end@ =~= klog_path@.skip(n - 5));
        if crate::text::str_eq(end, ".klog") {
            let front = klog_path.substring_char(0, n - 5);
            assert(front@ =~= klog_path@.take(n - 5));
            let mut s = String::from_str(front);
            s.append(".vlog");
            return s;
        }
    }
    let mut s = String::from_str(klog_path);
    s.append(".vlog");
    s
}

/// What is known of a finished table.
#[derive(Debug)]
pub struct FileMeta {
    pub id: u64,
    pub min_key: Vec<u8>,
    pub max_key: Vec<u8>,
    pub num_entries: u64,
    pub num_tombstones: u64,
    pub max_seq: u64,
    pub klog_size: u64,
    pub vlog_size: u64,
    pub range_count: u64,
    pub range_min_seq: u64,
    pub range_max_seq: u64,
    pub range_min_key: Option<Vec<u8>>,
    pub range_max_key: Option<Vec<u8>>,
}

impl FileMeta {
    /// The catalog's entry for this table, under this id and on this level. Its
    /// tier, partition, object and times are for others to fill in.
    pub fn to_sst_meta(&self, id: u64, level: u32) -> (r: SstMeta)
        ensures
            r@ == (crate::manifest::SstMetaView {
                id,
                level,
                num_entries: self.num_entries,
                num_tombstones: self.num_tombstones,
                max_seq: self.max_seq,
                klog_size: self.klog_size,
                vlog_size: self.vlog_size,
                min_key: self.min_key@,
                max_key: self.max_key@,
                partition: None,
                tier: None,
                max_entry_time: None,
                object: None,
                last_compaction_time: None,
                range_count: self.range_count,
                range_min_seq: self.range_min_seq,
                range_max_seq: self.range_max_seq,
                range_min_key: crate::manifest::opt_key(self.range_min_key),
                range_max_key: crate::manifest::opt_key(self.range_max_key),
            }),
    {
        SstMeta {
            id,
            level,
            num_entries: self.num_entries,
            num_tombstones: self.num_tombstones,
            max_seq: self.max_seq,
            klog_size: self.klog_size,
            vlog_size: self.vlog_size,
            min_key: copy_bytes(self.min_key.as_slice()),
            max_key: copy_bytes(self.max_key.as_slice()),
            partition: None,
            tier: None,
            max_entry_time: None,
            object: None,
            last_compaction_time: None,
            range_count: self.range_count,
            range_min_seq: self.range_min_seq,
            range_max_seq: self.range_max_seq,
            range_min_key: copy_opt_key(&self.range_min_key),
            range_max_key: copy_opt_key(&self.range_max_key),
        }
    }
}

// ---------------------------------------------------------------------------
// Frames of the value log
// ---------------------------------------------------------------------------

/// The length of a stored value as the header of its frame holds it. A longer
/// one does not fit there and is refused.
pub fn vlog_stored_len(stored_len: usize) -> (r: Result<u32, OndaError>)
    ensures
        stored_len <= u32::MAX ==> r == Ok::<u32, OndaError>(stored_len as u32),
        stored_len > u32::MAX ==> r is Err && r->Err_0 is TooLarge && crate::text::holds_text(
            r->Err_0.message_text(),
            crate::text::decimal_text(u32::MAX as nat),
        ),
{
    if stored_len as u64 > 0xFFFF_FFFF {
        proof {
            crate::text::lemma_holds_piece(
                "a vlog frame header holds a length of at most "@,
                crate::text::decimal_text(u32::MAX as nat),
                " bytes"@,
            );
        }
        return Err(OndaError::TooLarge(with_number("a vlog frame header holds a length of at most ", 4294967295, " bytes")));
    }
    Ok(stored_len as u32)
}

/// The codec that a value is stored with: its own where that makes it shorter,
/// else none, which is 0.
pub fn stored_codec(codec: u8, value_len: usize, compressed_len: usize) -> (r: u8)
    ensures
        r == (if compressed_len < value_len { codec } else { 0 }),
{
    if compressed_len < value_len {
        codec
    } else {
        0
    }
}

/// The header of a value-log frame: checksum of what is stored, codec, length.
pub open spec fn frame_header_wire(stored: Seq<u8>, codec: u8) -> Seq<u8> {
    crate::encoding::le_bytes(crate::encoding::crc32c(stored) as nat, 4) + (seq![codec] + crate::encoding::le_bytes(stored.len(), 4))
}

/// The header of the frame that stores these bytes.
pub fn encode_vlog_frame(stored: &[u8], codec: u8) -> (r: Result<Vec<u8>, OndaError>)
    ensures
        stored@.len() <= u32::MAX ==> r is Ok && r->Ok_0@ == frame_header_wire(stored@, codec),
        stored@.len() > u32::MAX ==> r is Err && r->Err_0 is TooLarge,
{
    let n = vlog_stored_len(stored.len())?;
    let mut b: Vec<u8> = Vec::new();
    append_u32(&mut b, checksum(stored));
    b.push(codec);
    append_u32(&mut b, n);
    proof {
        crate::encoding::lemma_le_bytes_len(crate::encoding::crc32c(stored@) as nat, 4);
        assert(b@ =~= frame_header_wire(stored@, codec));
    }
    Ok(b)
}

/// What the header of a frame says: checksum, codec, and the length of what
/// follows. A value is stored in no more bytes than it has.
pub open spec fn parse_frame_header(h: Seq<u8>, value_len: int) -> Option<(u32, u8, u32)> {
    if h.len() < VLOG_FRAME_HDR_LEN || u32_at(h, 5) > value_len { None } else { Some((u32_at(h, 0), h[4], u32_at(h, 5))) }
}

/// Read the header of the frame of a value of `value_len` bytes.
pub fn decode_vlog_frame(h: &[u8], value_len: usize) -> (r: Result<(u32, u8, u32), OndaError>)
    ensures
        match parse_frame_header(h@, value_len as int) {
            Some(x) => r == Ok::<(u32, u8, u32), OndaError>(x),
            None => r is Err && r->Err_0 is Corruption,
        },
{
    if h.len() < VLOG_FRAME_HDR_LEN {
        return Err(OndaError::Corruption(crate::text::join3("vlog frame: ", "truncated header", "")));
    }
    let n = read_u32_at(h, 5);
    if n as u64 > value_len as u64 {
        return Err(OndaError::Corruption(crate::text::join3("vlog frame: ", "stored bytes outnumber the value", "")));
    }
    Ok((read_u32_at(h, 0), h[4], n))
}

/// Check what a frame stores against the checksum in its header.
pub fn verify_vlog_frame(stored: &[u8], want: u32) -> (r: Result<(), OndaError>)
    ensures
        r is Ok <==> crate::encoding::crc32c(stored@) == want,
        r is Err ==> r->Err_0 is Corruption,
{
    if checksum(stored) != want {
        return Err(OndaError::Corruption(crate::text::join3("vlog frame: ", "checksum mismatch", "")));
    }
    Ok(())
}

/// Append a value that was read from the value log, which has `expected_len`
/// bytes; one of another length is corrupt, and nothing of it is appended.
pub fn append_vlog_payload(value: &[u8], expected_len: usize, out: &mut Vec<u8>) -> (r: Result<(), OndaError>)
    ensures
        value@.len() == expected_len ==> r is Ok && final(out)@ == old(out)@ + value@,
        value@.len() != expected_len ==> r is Err && r->Err_0 is Corruption && final(out)@ == old(out)@,
{
    if value.len() != expected_len {
        return Err(OndaError::Corruption(crate::text::join3("sst: ", "vlog value of another length", "")));
    }
    append_slice(out, value);
    Ok(())
}

/// The header of a frame is read back as it was written.
pub proof fn lemma_frame_round_trip(stored: Seq<u8>, codec: u8, value_len: int, rest: Seq<u8>)
    requires
        stored.len() <= u32::MAX,
        stored.len() <= value_len,
    ensures
        parse_frame_header(frame_header_wire(stored, codec) + rest, value_len) == Some(
            (crate::encoding::crc32c(stored), codec, stored.len() as u32),
        ),
{
    let h = frame_header_wire(stored, codec) + rest;
    let a = crate::encoding::le_bytes(crate::encoding::crc32c(stored) as nat, 4);
    let b = crate::encoding::le_bytes(stored.len(), 4);
    crate::encoding::lemma_le_bytes_len(crate::encoding::crc32c(stored) as nat, 4);
    crate::encoding::lemma_le_bytes_len(stored.len(), 4);
    assert(h.subrange(0, 4) =~= a);
    assert(h.subrange(5, 9) =~= b);
    lemma_number4(h, 0, crate::encoding::crc32c(stored));
    lemma_number4(h, 5, stored.len() as u32);
}

// ---------------------------------------------------------------------------
// What is accepted is what was written
// ---------------------------------------------------------------------------

proof fn lemma_number8_is_its_bytes(s: Seq<u8>, at: int)
    requires
        0 <= at,
        at + 8 <= s.len(),
    ensures
        s.subrange(at, at + 8) == crate::encoding::le_bytes(u64_at(s, at) as nat, 8),
{
    crate::encoding::lemma_pow256();
    crate::encoding::lemma_le_value_bytes(s.subrange(at, at + 8));
    crate::encoding::lemma_le_value_bound(s.subrange(at, at + 8));
}

proof fn lemma_number4_is_its_bytes(s: Seq<u8>, at: int)
    requires
        0 <= at,
        at + 4 <= s.len(),
    ensures
        s.subrange(at, at + 4) == crate::encoding::le_bytes(u32_at(s, at) as nat, 4),
{
    crate::encoding::lemma_pow256();
    crate::encoding::lemma_le_value_bytes(s.subrange(at, at + 4));
    crate::encoding::lemma_le_value_bound(s.subrange(at, at + 4));
}

/// The fields that a footer was written from, as far as it tells them.
pub open spec fn fields_of(t: TableFooter) -> FooterFields {
    FooterFields {
        index: t.index,
        bloom: t.bloom,
        num_entries: t.num_entries,
        max_seq: t.max_seq,
        btree: t.btree,
        caps: t.caps,
        aux: if t.aux.length > 0 { Some(t.aux) } else { None },
    }
}

/// A footer that is accepted is the footer that would be written for what it
/// says, byte for byte, and what it says fits the file: no other bytes pass.
pub proof fn lemma_accepted_footer_is_its_own(tail: Seq<u8>, file_len: int, t: TableFooter)
    requires
        parse_footer(tail, file_len) == Ok::<TableFooter, Fault>(t),
    ensures
        tail.skip(tail.len() - FOOTER_SIZE) == footer_wire(fields_of(t)),
        footer_fits(fields_of(t), file_len - FOOTER_SIZE),
{
    let b = tail.skip(tail.len() - FOOTER_SIZE);
    let f = fields_of(t);
    let flags = u32_at(b, 48);
    let caps = t.caps;
    lemma_number8_is_its_bytes(b, 0);
    lemma_number8_is_its_bytes(b, 8);
    lemma_number8_is_its_bytes(b, 16);
    lemma_number8_is_its_bytes(b, 24);
    lemma_number8_is_its_bytes(b, 32);
    lemma_number8_is_its_bytes(b, 40);
    lemma_number4_is_its_bytes(b, 48);
    lemma_number4_is_its_bytes(b, 52);
    lemma_number8_is_its_bytes(b, 56);
    lemma_number8_is_its_bytes(b, 64);
    lemma_number8_is_its_bytes(b, 72);
    lemma_number4_is_its_bytes(b, 80);
    lemma_number4_is_its_bytes(b, 84);
    assert(tail.skip(tail.len() - 8) =~= b.skip(88));
    let x: u32 = if t.bloom is Some { 1 } else { 0 };
    let y: u32 = if t.btree { 2 } else { 0 };
    assert(flags == x | y) by (bit_vector)
        requires
            flags & !3u32 == 0,
            x == (if flags & 1u32 != 0 { 1u32 } else { 0 }),
            y == (if flags & 2u32 != 0 { 2u32 } else { 0 }),
    ;
    assert(footer_flags(f) == flags);
    assert(or_none(f.bloom) == handle_at(b, 16));
    assert(or_none(f.aux) == handle_at(b, 64));
    assert(handle_wire(f.index) =~= b.subrange(0, 16));
    assert(handle_wire(or_none(f.bloom)) =~= b.subrange(16, 32));
    assert(handle_wire(or_none(f.aux)) =~= b.subrange(64, 80));
    assert(b.take(80) =~= b.subrange(0, 16) + b.subrange(16, 32) + b.subrange(32, 40) + b.subrange(40, 48) + b.subrange(48, 52) + b.subrange(
        52,
        56,
    ) + b.subrange(56, 64) + b.subrange(64, 80));
    assert(footer_head(f) == b.take(80));
    assert(b =~= b.take(80) + b.subrange(80, 84) + b.subrange(84, 88) + b.skip(88));
}

/// The header of a value log that is accepted is the one that is written.
pub proof fn lemma_accepted_vlog_header_is_the_one(b: Seq<u8>)
    requires
        vlog_header_fault(b) is None,
    ensures
        b.take(VLOG_HEADER_LEN as int) == vlog_header_wire(),
{
    lemma_number4_is_its_bytes(b, 8);
    lemma_number4_is_its_bytes(b, 12);
    lemma_number4_is_its_bytes(b, 28);
    let z = b.subrange(12, 28);
    reveal_with_fuel(crate::encoding::le_bytes, 9);
    assert(crate::encoding::le_bytes(0, 4) =~= seq![0u8, 0, 0, 0]);
    assert(crate::encoding::le_bytes(0, 8) =~= seq![0u8, 0, 0, 0, 0, 0, 0, 0]);
    assert forall|i: int| 0 <= i < 16 implies z[i] == 0 by {
        if i < 4 {
            assert(b.subrange(12, 16)[i] == 0);
        } else {
            assert(b.subrange(16, 28)[i - 4] == 0);
        }
    }
    assert(b.take(28) =~= b.take(8) + b.subrange(8, 12) + b.subrange(12, 20) + b.subrange(20, 28));
    assert(b.subrange(12, 20) =~= crate::encoding::le_bytes(0, 8)) by {
        assert forall|i: int| 0 <= i < 8 implies b.subrange(12, 20)[i] == 0 by {
            assert(z[i] == 0);
        }
    }
    assert(b.subrange(20, 28) =~= crate::encoding::le_bytes(0, 8)) by {
        assert forall|i: int| 0 <= i < 8 implies b.subrange(20, 28)[i] == 0 by {
            assert(z[i + 8] == 0);
        }
    }
    assert(b.take(28) == vlog_head());
    assert(b.take(32) =~= b.take(28) + b.subrange(28, 32));
}

/// The header of a frame that is accepted is made of its three fields, and it
/// promises no more bytes than the value has.
pub proof fn lemma_accepted_frame_is_its_fields(h: Seq<u8>, value_len: int, crc: u32, codec: u8, len: u32)
    requires
        parse_frame_header(h, value_len) == Some((crc, codec, len)),
    ensures
        h.take(9) == crate::encoding::le_bytes(crc as nat, 4) + seq![codec] + crate::encoding::le_bytes(len as nat, 4),
        len <= value_len,
{
    lemma_number4_is_its_bytes(h, 0);
    lemma_number4_is_its_bytes(h, 5);
    assert(h.take(9) =~= h.subrange(0, 4) + seq![h[4]] + h.subrange(5, 9));
}

/// The value log of a key log has the same name but for its ending; where the
/// key log has another ending, it is appended.
pub proof fn lemma_value_log_stands_beside_the_key_log(base: Seq<char>)
    ensures
        vlog_path_text(base + ".klog"@) == base + ".vlog"@,
        !ends_in_klog(base) ==> vlog_path_text(base) == base + ".vlog"@,
{
    reveal_strlit(".klog");
    let k = base + ".klog"@;
    assert(k.skip(k.len() - 5) =~= ".klog"@);
    assert(k.take(k.len() - 5) =~= base);
}

} // verus!
