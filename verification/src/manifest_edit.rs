//! Numbered version edits of the catalog and the log that holds them.
//!
//! A log is a header and then framed records. Only a record that the end of
//! the file cuts short ends a log cleanly; a complete record that is wrong in
//! any way is corruption.

use std::collections::{HashMap, HashSet};

use vstd::prelude::*;
use vstd::std_specs::hash::*;
use vstd::string::{StrSliceExecFns, StringExecFns};

pub use crate::edit_codec::{Op, TableUpdate, VersionEdit};
pub use crate::edit_read::decode_payload;
pub use crate::edit_write::{encode_op, encode_payload};

use crate::catalog::{Catalog, Refusal};
use crate::edit_codec::{step_error, OpView};
use crate::encoding::{append_slice, append_u32, append_u64, checksum, read_u32_at, read_u64_at};
use crate::error::OndaError;
use crate::format::{check_caps, CAP_MANIFEST_EDITS, EDIT_LOG_MAGIC};
use crate::manifest::{CfManifest, CfView, Manifest, ManifestView, SstMeta, SstMetaView, WalLayout};
use crate::text::with_number;

verus! {

/// Version of the log's layout.
pub const EDIT_LOG_SCHEMA: u32 = 1;
/// Bytes before the first record.
pub const EDIT_LOG_HEADER_BYTES: usize = 32;
/// Bytes of a record before its payload.
pub const EDIT_RECORD_HEADER_BYTES: usize = 8;
/// Largest payload of a record.
pub const MAX_EDIT_RECORD_BYTES: usize = 0x400_0000;
/// First four bytes of a log of the release before, as a number.
pub const LEGACY_EDIT_LOG_MAGIC: u32 = 0x4F4E_4445;

// ---------------------------------------------------------------------------
// Paths
// ---------------------------------------------------------------------------

/// A name below a directory.
pub open spec fn joined_path(dir: Seq<char>, name: Seq<char>) -> Seq<char> {
    if dir.len() == 0 {
        name
    } else if dir.last() == '/' {
        dir + name
    } else {
        dir + "/"@ + name
    }
}

fn join_path(dir: &str, name: &str) -> (r: String)
    ensures
        r@ == joined_path(dir@, name@),
{
    let n = dir.unicode_len();
    let mut s = String::from_str(dir);
    if n == 0 {
        return String::from_str(name);
    }
    if dir.get_char(n - 1) != '/' {
        s.append("/");
    }
    s.append(name);
    s
}

/// Where the edit log of the database in `db_dir` lives.
pub fn edit_log_path(db_dir: &str) -> (r: String)
    ensures
        r@ == joined_path(db_dir@, "MANIFEST-EDITS"@),
{
    join_path(db_dir, "MANIFEST-EDITS")
}

/// Where a new edit log is built before it takes the log's place.
pub fn edit_log_tmp_path(db_dir: &str) -> (r: String)
    ensures
        r@ == joined_path(db_dir@, "MANIFEST-EDITS.tmp"@),
{
    join_path(db_dir, "MANIFEST-EDITS.tmp")
}

// ---------------------------------------------------------------------------
// The header
// ---------------------------------------------------------------------------

/// What a log says of itself: the last edit its snapshot contains, and which
/// snapshot that is.
#[derive(Debug, Clone, Copy, PartialEq, Eq, Structural)]
pub struct EditLogHeader {
    pub base_applied_through: u64,
    pub snapshot_generation: u64,
}

/// The header's bytes up to its checksum.
pub open spec fn header_body(h: EditLogHeader) -> Seq<u8> {
    EDIT_LOG_MAGIC@ + (crate::encoding::le_bytes(1, 4) + (crate::encoding::le_bytes(h.base_applied_through as nat, 8) + crate::encoding::le_bytes(
        h.snapshot_generation as nat,
        8,
    )))
}

/// The header as bytes.
pub open spec fn header_wire(h: EditLogHeader) -> Seq<u8> {
    header_body(h) + crate::encoding::le_bytes(crate::encoding::crc32c(header_body(h)) as nat, 4)
}

/// What the first bytes of a log are.
pub enum HeaderCheck {
    /// A log of the release before, which is not read here.
    Legacy,
    /// Too short to hold a header.
    Short,
    /// Not an edit log.
    Foreign,
    /// A layout that is not implemented.
    Schema,
    /// The checksum does not match.
    Damaged,
    /// A header.
    Good(EditLogHeader),
}

/// What the first bytes of `data` are; the checks are made in this order.
pub open spec fn check_header(data: Seq<u8>) -> HeaderCheck {
    if data.len() >= 4 && crate::encoding::le_value(data.take(4)) == LEGACY_EDIT_LOG_MAGIC {
        HeaderCheck::Legacy
    } else if data.len() < 32 {
        HeaderCheck::Short
    } else if data.take(8) != EDIT_LOG_MAGIC@ {
        HeaderCheck::Foreign
    } else if crate::encoding::le_value(data.subrange(8, 12)) != 1 {
        HeaderCheck::Schema
    } else if crate::encoding::le_value(data.subrange(28, 32)) != crate::encoding::crc32c(data.take(28)) {
        HeaderCheck::Damaged
    } else {
        HeaderCheck::Good(EditLogHeader {
            base_applied_through: crate::encoding::le_value(data.subrange(12, 20)) as u64,
            snapshot_generation: crate::encoding::le_value(data.subrange(20, 28)) as u64,
        })
    }
}

proof fn lemma_header_len(h: EditLogHeader)
    ensures
        header_body(h).len() == 28,
        header_wire(h).len() == 32,
{
    crate::encoding::lemma_le_bytes_len(1, 4);
    crate::encoding::lemma_le_bytes_len(h.base_applied_through as nat, 8);
    crate::encoding::lemma_le_bytes_len(h.snapshot_generation as nat, 8);
    crate::encoding::lemma_le_bytes_len(crate::encoding::crc32c(header_body(h)) as nat, 4);
}

/// A header is read back from what was written, whatever follows it.
pub proof fn lemma_header_round_trip(h: EditLogHeader, rest: Seq<u8>)
    ensures
        check_header(header_wire(h) + rest) == HeaderCheck::Good(h),
{
    lemma_header_len(h);
    crate::encoding::lemma_pow256();
    crate::encoding::lemma_le_round_trip(1, 4);
    crate::encoding::lemma_le_round_trip(h.base_applied_through as nat, 8);
    crate::encoding::lemma_le_round_trip(h.snapshot_generation as nat, 8);
    crate::encoding::lemma_le_round_trip(crate::encoding::crc32c(header_body(h)) as nat, 4);
    let d = header_wire(h) + rest;
    assert(d.take(8) =~= EDIT_LOG_MAGIC@);
    assert(d.subrange(8, 12) =~= crate::encoding::le_bytes(1, 4));
    assert(d.subrange(12, 20) =~= crate::encoding::le_bytes(h.base_applied_through as nat, 8));
    assert(d.subrange(20, 28) =~= crate::encoding::le_bytes(h.snapshot_generation as nat, 8));
    assert(d.subrange(28, 32) =~= crate::encoding::le_bytes(crate::encoding::crc32c(header_body(h)) as nat, 4));
    assert(d.take(28) =~= header_body(h));
    let q = d.take(4);
    assert(q[0] == 0x59 && q[1] == 0x4F && q[2] == 0x4C && q[3] == 0x4F);
    reveal_with_fuel(crate::encoding::le_value, 5);
    assert(crate::encoding::le_value(q) != LEGACY_EDIT_LOG_MAGIC);
}

impl EditLogHeader {
    /// The header as bytes.
    pub fn encode(&self) -> (r: Vec<u8>)
        ensures
            r@ == header_wire(*self),
            r@.len() == 32,
    {
        let mut b: Vec<u8> = Vec::with_capacity(EDIT_LOG_HEADER_BYTES);
        let magic: [u8; 8] = EDIT_LOG_MAGIC;
        append_slice(&mut b, magic.as_slice());
        append_u32(&mut b, EDIT_LOG_SCHEMA);
        append_u64(&mut b, self.base_applied_through);
        append_u64(&mut b, self.snapshot_generation);
        assert(b@ =~= header_body(*self));
        let crc = checksum(b.as_slice());
        append_u32(&mut b, crc);
        proof {
            lemma_header_len(*self);
        }
        b
    }

    /// Read the header at the front of a log.
    pub fn decode(data: &[u8]) -> (r: Result<EditLogHeader, OndaError>)
        ensures
            match check_header(data@) {
                HeaderCheck::Good(h) => r == Ok::<EditLogHeader, OndaError>(h),
                HeaderCheck::Legacy | HeaderCheck::Schema => r is Err && r->Err_0 is UnsupportedFormat,
                _ => r is Err && r->Err_0 is Corruption,
            },
    {
        if data.len() >= 4 && read_u32_at(data, 0) == LEGACY_EDIT_LOG_MAGIC {
            return Err(OndaError::UnsupportedFormat(
                String::from_str("manifest edit log: a 0.9 log; the database must be upgraded first"),
            ));
        }
        if data.len() < EDIT_LOG_HEADER_BYTES {
            return Err(OndaError::Corruption(
                with_number("manifest edit log: file is ", data.len() as u64, " bytes, shorter than the 32-byte header"),
            ));
        }
        let magic: [u8; 8] = EDIT_LOG_MAGIC;
        assert(data@.take(8) =~= data@.subrange(0, 8));
        if !crate::encoding::bytes_eq(&data[0..8], magic.as_slice()) {
            return Err(OndaError::Corruption(String::from_str("manifest edit log: magic is not YOLODBED")));
        }
        let schema = read_u32_at(data, 8);
        if schema != EDIT_LOG_SCHEMA {
            return Err(OndaError::UnsupportedFormat(
                with_number("manifest edit log: schema ", schema as u64, " is not implemented by this binary"),
            ));
        }
        assert(data@.take(28) =~= data@.subrange(0, 28));
        if read_u32_at(data, 28) != checksum(&data[0..28]) {
            return Err(OndaError::Corruption(String::from_str("manifest edit log: header CRC mismatch")));
        }
        Ok(EditLogHeader {
            base_applied_through: read_u64_at(data, 12),
            snapshot_generation: read_u64_at(data, 20),
        })
    }
}

// ---------------------------------------------------------------------------
// Records
// ---------------------------------------------------------------------------

/// One edit with its number.
#[derive(Debug, Clone, PartialEq, Eq)]
pub struct EditRecord {
    pub edit_id: u64,
    pub edit: VersionEdit,
}

#[verifier::ext_equal]
pub struct RecordView {
    pub edit_id: u64,
    pub ops: Seq<OpView>,
}

impl View for EditRecord {
    type V = RecordView;

    open spec fn view(&self) -> RecordView {
        RecordView { edit_id: self.edit_id, ops: self.edit@ }
    }
}

pub open spec fn record_views(s: Seq<EditRecord>) -> Seq<RecordView> {
    s.map_values(|r: EditRecord| r@)
}

/// A payload behind its length and its checksum.
pub open spec fn framed(payload: Seq<u8>) -> Seq<u8> {
    crate::encoding::le_bytes((payload.len() as u32) as nat, 4) + (crate::encoding::le_bytes(crate::encoding::crc32c(payload) as nat, 4) + payload)
}

/// A record as bytes.
pub open spec fn record_wire(r: RecordView) -> Seq<u8> {
    framed(crate::edit_codec::payload_wire(r.edit_id, r.ops))
}

/// Records one after another.
pub open spec fn log_wire(rs: Seq<RecordView>) -> Seq<u8>
    decreases rs.len(),
{
    if rs.len() == 0 { Seq::empty() } else { record_wire(rs[0]) + log_wire(rs.skip(1)) }
}

/// What stands at `off` in a log.
pub enum FrameCheck {
    /// The end of the file cuts the record short, or there is none.
    Torn,
    /// The record is wrong.
    Damaged,
    /// A record, and where the next one starts.
    Record(RecordView, int),
}

/// What stands at `off` in a log.
pub open spec fn check_frame(data: Seq<u8>, off: int) -> FrameCheck {
    if off + 8 > data.len() {
        FrameCheck::Torn
    } else {
        let len = crate::encoding::le_value(data.subrange(off, off + 4));
        if len > MAX_EDIT_RECORD_BYTES {
            FrameCheck::Damaged
        } else if off + 8 + len > data.len() {
            FrameCheck::Torn
        } else {
            let payload = data.subrange(off + 8, off + 8 + len);
            if crate::encoding::le_value(data.subrange(off + 4, off + 8)) != crate::encoding::crc32c(payload) {
                FrameCheck::Damaged
            } else {
                match crate::edit_codec::parse_payload(payload) {
                    None => FrameCheck::Damaged,
                    Some((edit_id, ops)) => FrameCheck::Record(RecordView { edit_id, ops }, off + 8 + len),
                }
            }
        }
    }
}

/// The records from `off` on and where they end; nothing if one is wrong.
pub open spec fn parse_records(data: Seq<u8>, off: int) -> Option<(Seq<RecordView>, int)>
    decreases data.len() - off,
{
    match check_frame(data, off) {
        FrameCheck::Torn => Some((Seq::empty(), off)),
        FrameCheck::Damaged => None,
        FrameCheck::Record(r, next) => match parse_records(data, next) {
            None => None,
            Some((rs, end)) => Some((seq![r] + rs, end)),
        },
    }
}

/// Where the first record stands that is wrong, where one is.
pub open spec fn damaged_at(data: Seq<u8>, off: int) -> int
    decreases data.len() - off,
{
    match check_frame(data, off) {
        FrameCheck::Record(_, next) => damaged_at(data, next),
        _ => off,
    }
}

/// What an error says of the wrong record at `off`: that it is above the cap,
/// that its checksum fails, or what is wrong with the edit in it.
pub open spec fn explains_record(e: OndaError, data: Seq<u8>, off: int) -> bool {
    let len = crate::encoding::le_value(data.subrange(off, off + 4));
    let payload = data.subrange(off + 8, off + 8 + len);
    &&& e is Corruption
    &&& if len > MAX_EDIT_RECORD_BYTES {
        crate::text::holds_text(e.message_text(), "cap"@)
    } else if crate::encoding::le_value(data.subrange(off + 4, off + 8)) != crate::encoding::crc32c(payload) {
        crate::text::holds_text(e.message_text(), "CRC"@)
    } else {
        crate::edit_codec::explains_payload(e, payload)
    }
}

/// One edit as a framed record.
pub fn encode_record(edit_id: u64, edit: &VersionEdit) -> (r: Vec<u8>)
    ensures
        r@ == record_wire(RecordView { edit_id, ops: edit@ }),
{
    let payload = encode_payload(edit_id, edit);
    let mut b: Vec<u8> = Vec::with_capacity(payload.len());
    append_u32(&mut b, payload.len() as u32);
    append_u32(&mut b, checksum(payload.as_slice()));
    append_slice(&mut b, payload.as_slice());
    assert(b@ =~= framed(payload@));
    b
}

/// One edit as a framed record, if its payload is not above the limit that
/// readers enforce.
pub fn encode_bounded_record(edit_id: u64, edit: &VersionEdit) -> (r: Result<Vec<u8>, OndaError>)
    ensures
        r is Ok <==> crate::edit_codec::payload_wire(edit_id, edit@).len() <= MAX_EDIT_RECORD_BYTES,
        r is Ok ==> r->Ok_0@ == record_wire(RecordView { edit_id, ops: edit@ }),
        r is Err ==> r->Err_0 is InvalidArgs,
{
    let payload = encode_payload(edit_id, edit);
    if payload.len() > MAX_EDIT_RECORD_BYTES {
        return Err(OndaError::InvalidArgs(with_number("manifest edit ", edit_id, ": exceeds the 67108864-byte record cap")));
    }
    Ok(encode_record(edit_id, edit))
}

proof fn lemma_tail_is_held(a: Seq<char>, b: Seq<char>, c: Seq<char>, t: Seq<char>)
    requires
        crate::text::holds_text(c, t),
    ensures
        crate::text::holds_text(a + b + c, t),
{
    crate::text::lemma_holds_in_piece(a + b, c, Seq::empty(), t);
    assert(a + b + c + Seq::<char>::empty() =~= a + b + c);
}

/// The records of a log, and where the last complete one ends.
pub fn decode_records(data: &[u8]) -> (r: Result<(Vec<EditRecord>, usize), OndaError>)
    ensures
        match parse_records(data@, 32) {
            Some((rs, end)) => r is Ok && record_views(r->Ok_0.0@) == rs && r->Ok_0.1 == end,
            None => r is Err && explains_record(r->Err_0, data@, damaged_at(data@, 32)),
        },
{
    let mut off: usize = EDIT_LOG_HEADER_BYTES;
    let mut out: Vec<EditRecord> = Vec::new();
    assert(record_views(out@) =~= Seq::empty());
    proof {
        match parse_records(data@, 32) {
            Some((rs, end)) => {
                assert(record_views(out@) + rs =~= rs);
            },
            None => {},
        }
    }
    loop
        invariant
            off <= data.len() || off == 32,
            parse_records(data@, 32) == (match parse_records(data@, off as int) {
                Some((rs, end)) => Some((record_views(out@) + rs, end)),
                None => None::<(Seq<RecordView>, int)>,
            }),
            damaged_at(data@, 32) == damaged_at(data@, off as int),
        decreases data.len() - off,
    {
        let ghost out0 = out@;
        if off > data.len() || data.len() - off < EDIT_RECORD_HEADER_BYTES {
            assert(check_frame(data@, off as int) is Torn);
            assert(record_views(out@) + Seq::<RecordView>::empty() =~= record_views(out@));
            return Ok((out, off));
        }
        let len32 = read_u32_at(data, off);
        if len32 > 0x400_0000 {
            let e = OndaError::Corruption(
                with_number("manifest edit log: record at offset ", off as u64, " declares more than the 67108864-byte cap"),
            );
            proof {
                let what = " declares more than the 67108864-byte cap"@;
                reveal_strlit(" declares more than the 67108864-byte cap");
                reveal_strlit("cap");
                assert(what.subrange(38, 38int + "cap"@.len()) =~= "cap"@);
                lemma_tail_is_held("manifest edit log: record at offset "@, crate::text::decimal_text(off as nat), what, "cap"@);
            }
            return Err(e);
        }
        let len = len32 as usize;
        let body = off + EDIT_RECORD_HEADER_BYTES;
        if data.len() - body < len {
            assert(check_frame(data@, off as int) is Torn);
            assert(record_views(out@) + Seq::<RecordView>::empty() =~= record_views(out@));
            return Ok((out, off));
        }
        let payload = &data[body..body + len];
        if read_u32_at(data, off + 4) != checksum(payload) {
            let e = OndaError::Corruption(with_number("manifest edit log: complete record at offset ", off as u64, " fails its CRC"));
            proof {
                let what = " fails its CRC"@;
                reveal_strlit(" fails its CRC");
                reveal_strlit("CRC");
                assert(what.subrange(11, 11int + "CRC"@.len()) =~= "CRC"@);
                lemma_tail_is_held("manifest edit log: complete record at offset "@, crate::text::decimal_text(off as nat), what, "CRC"@);
            }
            return Err(e);
        }
        let (edit_id, edit) = decode_payload(payload)?;
        let ghost rec = RecordView { edit_id, ops: edit@ };
        out.push(EditRecord { edit_id, edit });
        proof {
            assert(check_frame(data@, off as int) == FrameCheck::Record(rec, body + len));
            match parse_records(data@, body + len) {
                Some((rs, end)) => {
                    assert(record_views(out0) + (seq![rec] + rs) =~= record_views(out@) + rs);
                },
                None => {},
            }
        }
        off = body + len;
    }
}

// ---------------------------------------------------------------------------
// Checking an edit
// ---------------------------------------------------------------------------

/// What is known of one column family while an edit is checked.
struct CfState {
    name: String,
    exists: bool,
    tables: HashMap<u64, u32>,
}

/// The catalog that the next step of an edit meets. With a seed, families are
/// looked up there when a step first names them.
struct Candidate<'a> {
    seed: Option<&'a Manifest>,
    cfs: Vec<CfState>,
    next_file_id: u64,
    global_seq: u64,
    wal_layout: WalLayout,
    instance_nonce: Option<u64>,
    caps: u64,
}

spec fn named(cfs: Seq<CfState>, name: Seq<char>, i: int) -> bool {
    0 <= i < cfs.len() && cfs[i].name@ == name
}

impl<'a> Candidate<'a> {
    spec fn inv(self) -> bool {
        &&& forall|i: int, j: int| 0 <= i < j < self.cfs@.len() ==> (#[trigger] self.cfs@[i]).name@ != (#[trigger] self.cfs@[j]).name@
        &&& forall|i: int| 0 <= i < self.cfs@.len() && !(#[trigger] self.cfs@[i]).exists ==> self.cfs@[i].tables@ == Map::<u64, u32>::empty()
    }

    /// The tables of a family, if it exists.
    spec fn state(self, name: Seq<char>) -> Option<Map<u64, u32>> {
        if exists|i: int| named(self.cfs@, name, i) {
            let i = choose|i: int| named(self.cfs@, name, i);
            if self.cfs@[i].exists { Some(self.cfs@[i].tables@) } else { None }
        } else {
            match self.seed {
                Some(m) => crate::catalog::cf_tables(m@.cfs, name),
                None => None,
            }
        }
    }

    spec fn catalog(self) -> Catalog {
        Catalog {
            cfs: Map::new(|n: Seq<char>| self.state(n) is Some, |n: Seq<char>| self.state(n)->0),
            next_file_id: self.next_file_id,
            global_seq: self.global_seq,
            wal_layout: self.wal_layout,
            instance_nonce: self.instance_nonce,
            caps: self.caps,
        }
    }

    proof fn lemma_state(self, i: int)
        requires
            self.inv(),
            0 <= i < self.cfs@.len(),
        ensures
            self.state(self.cfs@[i].name@) == (if self.cfs@[i].exists { Some(self.cfs@[i].tables@) } else { None }),
    {
        let name = self.cfs@[i].name@;
        assert(named(self.cfs@, name, i));
        let k = choose|k: int| named(self.cfs@, name, k);
        if k < i {
            assert(self.cfs@[k].name@ != self.cfs@[i].name@);
        } else if i < k {
            assert(self.cfs@[i].name@ != self.cfs@[k].name@);
        }
    }

    /// What replacing one known family's state does to the catalog.
    proof fn lemma_replaced(self, new: Candidate<'a>, i: int)
        requires
            self.inv(),
            new.inv(),
            0 <= i < self.cfs@.len(),
            new.seed == self.seed,
            new.cfs@.len() == self.cfs@.len(),
            new.cfs@[i].name@ == self.cfs@[i].name@,
            forall|j: int| 0 <= j < self.cfs@.len() && j != i ==> new.cfs@[j] == self.cfs@[j],
        ensures
            new.cfs@[i].exists ==> new.catalog().cfs == self.catalog().cfs.insert(self.cfs@[i].name@, new.cfs@[i].tables@),
            !new.cfs@[i].exists ==> new.catalog().cfs == self.catalog().cfs.remove(self.cfs@[i].name@),
    {
        let name = self.cfs@[i].name@;
        new.lemma_state(i);
        assert forall|n: Seq<char>| n != name implies #[trigger] new.state(n) == self.state(n) by {
            if exists|j: int| named(self.cfs@, n, j) {
                let j = choose|j: int| named(self.cfs@, n, j);
                assert(named(new.cfs@, n, j));
                self.lemma_state(j);
                new.lemma_state(j);
            } else {
                if exists|j: int| named(new.cfs@, n, j) {
                    let j = choose|j: int| named(new.cfs@, n, j);
                    assert(named(self.cfs@, n, j));
                }
            }
        }
        let a = new.catalog().cfs;
        let b = if new.cfs@[i].exists {
            self.catalog().cfs.insert(name, new.cfs@[i].tables@)
        } else {
            self.catalog().cfs.remove(name)
        };
        assert forall|n: Seq<char>| #[trigger] a.dom().contains(n) == b.dom().contains(n) by {
            assert(new.state(n) == self.state(n) || n == name);
        }
        assert forall|n: Seq<char>| a.dom().contains(n) implies #[trigger] a[n] == b[n] by {
            assert(new.state(n) == self.state(n) || n == name);
        }
        assert(a =~= b);
    }

    /// The index of a family's state, looked up in the seed if need be.
    fn cf(&mut self, name: &String) -> (i: usize)
        requires
            old(self).inv(),
        ensures
            final(self).inv(),
            final(self).catalog() == old(self).catalog(),
            final(self).seed == old(self).seed,
            i < final(self).cfs@.len(),
            final(self).cfs@[i as int].name@ == name@,
            final(self).cfs@[i as int].exists == old(self).catalog().cfs.dom().contains(name@),
            final(self).cfs@[i as int].tables@ == crate::catalog::met_tables(old(self).catalog(), name@),
    {
        let ghost start = *self;
        let mut i: usize = 0;
        while i < self.cfs.len()
            invariant
                i <= self.cfs@.len(),
                *self == start,
                start == *old(self),
                self.inv(),
                forall|j: int| 0 <= j < i ==> (#[trigger] self.cfs@[j]).name@ != name@,
            decreases self.cfs@.len() - i,
        {
            if self.cfs[i].name == *name {
                proof {
                    self.lemma_state(i as int);
                }
                return i;
            }
            i += 1;
        }
        let mut exists: bool = false;
        let mut tables: HashMap<u64, u32> = HashMap::new();
        match self.seed {
            None => {},
            Some(m) => {
                match cf_index(m, name) {
                    None => {},
                    Some(k) => {
                        exists = true;
                        tables = levels(&m.cfs[k].sstables);
                    },
                }
            },
        }
        assert(!(exists|j: int| named(start.cfs@, name@, j)));
        self.cfs.push(CfState { name: name.clone(), exists, tables });
        proof {
            let n = start.cfs@.len() as int;
            assert(self.inv()) by {
                assert forall|a: int, b: int| 0 <= a < b < self.cfs@.len() implies (#[trigger] self.cfs@[a]).name@
                    != (#[trigger] self.cfs@[b]).name@ by {
                    assert(self.cfs@[a] == start.cfs@[a]);
                    if b < n {
                        assert(self.cfs@[b] == start.cfs@[b]);
                    }
                }
                assert forall|a: int| 0 <= a < self.cfs@.len() && !(#[trigger] self.cfs@[a]).exists implies self.cfs@[a].tables@
                    == Map::<u64, u32>::empty() by {
                    if a < n {
                        assert(self.cfs@[a] == start.cfs@[a]);
                    }
                }
            }
            assert forall|x: Seq<char>| #[trigger] self.state(x) == start.state(x) by {
                if x == name@ {
                    self.lemma_state(n);
                } else if exists|j: int| named(start.cfs@, x, j) {
                    let j = choose|j: int| named(start.cfs@, x, j);
                    assert(named(self.cfs@, x, j));
                    self.lemma_state(j);
                    start.lemma_state(j);
                } else {
                    if exists|j: int| named(self.cfs@, x, j) {
                        let j = choose|j: int| named(self.cfs@, x, j);
                        assert(named(start.cfs@, x, j));
                    }
                }
            }
            assert(self.catalog().cfs =~= start.catalog().cfs);
            assert(self.state(name@) == start.state(name@));
        }
        self.cfs.len() - 1
    }
}

/// The level of each table.
fn levels(ss: &Vec<SstMeta>) -> (r: HashMap<u64, u32>)
    ensures
        r@ == crate::catalog::tables_of(crate::manifest::sst_views(ss@)),
{
    broadcast use group_hash_axioms;

    let mut r: HashMap<u64, u32> = HashMap::new();
    let ghost vs = crate::manifest::sst_views(ss@);
    let mut i: usize = 0;
    assert(vs.take(0) =~= Seq::empty());
    while i < ss.len()
        invariant
            i <= ss.len(),
            vs == crate::manifest::sst_views(ss@),
            r@ == crate::catalog::tables_of(vs.take(i as int)),
        decreases ss.len() - i,
    {
        broadcast use group_hash_axioms;

        r.insert(ss[i].id, ss[i].level);
        assert(vs.take(i + 1).drop_last() =~= vs.take(i as int));
        i += 1;
    }
    assert(vs.take(vs.len() as int) =~= vs);
    r
}

/// The first column family called `name`.
fn cf_index(m: &Manifest, name: &String) -> (r: Option<usize>)
    ensures
        match crate::catalog::first_cf(m@.cfs, name@) {
            Some(i) => r is Some && r->0 == i && i < m.cfs@.len() && m.cfs@[i].name@ == name@,
            None => r is None,
        },
{
    let mut i: usize = 0;
    while i < m.cfs.len()
        invariant
            i <= m.cfs@.len(),
            forall|j: int| 0 <= j < i ==> (#[trigger] m@.cfs[j]).name != name@,
        decreases m.cfs@.len() - i,
    {
        if m.cfs[i].name == *name {
            proof {
                assert(m@.cfs[i as int].name == name@);
                crate::catalog::lemma_first_cf(m@.cfs, name@, i as int);
            }
            return Some(i);
        }
        i += 1;
    }
    proof {
        crate::catalog::lemma_no_cf(m@.cfs, name@);
    }
    None
}

impl Candidate<'static> {
    /// A candidate that knows every family of `m` from the start.
    fn eager(m: &Manifest) -> (c: Candidate<'static>)
        ensures
            c.inv(),
            c.seed is None,
            c.catalog() == crate::catalog::catalog_of(m@),
    {
        let mut c: Candidate<'static> = Candidate {
            seed: None,
            cfs: Vec::new(),
            next_file_id: m.next_file_id,
            global_seq: m.global_seq,
            wal_layout: m.wal_layout,
            instance_nonce: m.instance_nonce,
            caps: m.caps,
        };
        let ghost vs = m@.cfs;
        let mut i: usize = 0;
        assert(vs.take(0) =~= Seq::empty());
        assert(c.catalog().cfs =~= crate::catalog::cf_map(vs.take(0)));
        while i < m.cfs.len()
            invariant
                i <= m.cfs@.len(),
                vs == m@.cfs,
                c.inv(),
                c.seed is None,
                c.next_file_id == m.next_file_id,
                c.global_seq == m.global_seq,
                c.wal_layout == m.wal_layout,
                c.instance_nonce == m.instance_nonce,
                c.caps == m.caps,
                c.catalog().cfs == crate::catalog::cf_map(vs.take(i as int)),
            decreases m.cfs@.len() - i,
        {
            let k = c.cf(&m.cfs[i].name);
            let ghost before = c;
            c.cfs[k].exists = true;
            c.cfs[k].tables = levels(&m.cfs[i].sstables);
            proof {
                assert(vs.take(i + 1).drop_last() =~= vs.take(i as int));
                before.lemma_replaced(c, k as int);
            }
            i += 1;
        }
        assert(vs.take(vs.len() as int) =~= vs);
        c
    }
}

/// Whether a result says what a refusal of step `n` says.
spec fn answers(r: Result<(), OndaError>, refusal: Option<Refusal>, n: nat) -> bool {
    match refusal {
        None => r is Ok,
        Some(Refusal::Precondition) => r is Err && crate::edit_codec::blames_step(r->Err_0, n),
        Some(Refusal::Capability) => r is Err && r->Err_0 is UnsupportedFormat,
    }
}

/// Check one step against the catalog that it meets, and make that the
/// catalog the next step meets.
fn validate_op(c: &mut Candidate<'_>, i: usize, op: &Op) -> (r: Result<(), OndaError>)
    requires
        old(c).inv(),
    ensures
        final(c).inv(),
        final(c).seed == old(c).seed,
        final(c).catalog() == crate::catalog::check_op(old(c).catalog(), op@).0,
        answers(r, crate::catalog::check_op(old(c).catalog(), op@).1, i as nat),
{
    broadcast use group_hash_axioms;

    let ghost c0 = c.catalog();
    match op {
        Op::AddTable { cf, meta } => {
            let k = c.cf(cf);
            if !c.cfs[k].exists {
                return Err(step_error(i as u64, "precondition failed: AddTable: no such column family"));
            }
            if c.cfs[k].tables.contains_key(&meta.id) {
                return Err(step_error(i as u64, "precondition failed: AddTable: table already there"));
            }
            let ghost before = *c;
            c.cfs[k].tables.insert(meta.id, meta.level);
            proof {
                before.lemma_replaced(*c, k as int);
            }
        },
        Op::RemoveTable { cf, id, expected_level } => {
            let k = c.cf(cf);
            match c.cfs[k].tables.get(id) {
                None => {
                    return Err(step_error(i as u64, "precondition failed: RemoveTable: table absent"));
                },
                Some(level) => {
                    if *level != *expected_level {
                        return Err(step_error(i as u64, "precondition failed: RemoveTable: table is at another level"));
                    }
                },
            }
            let ghost before = *c;
            c.cfs[k].tables.remove(id);
            proof {
                before.lemma_replaced(*c, k as int);
            }
        },
        Op::UpdateTable { cf, id, update } => {
            if update.mask() == 0 {
                return Err(step_error(i as u64, "precondition failed: UpdateTable: empty field mask"));
            }
            let k = c.cf(cf);
            if !c.cfs[k].tables.contains_key(id) {
                return Err(step_error(i as u64, "precondition failed: UpdateTable: table absent"));
            }
            if let Some(level) = update.level {
                let ghost before = *c;
                c.cfs[k].tables.insert(*id, level);
                proof {
                    before.lemma_replaced(*c, k as int);
                }
            }
        },
        Op::CreateCf { name, .. } => {
            let k = c.cf(name);
            if c.cfs[k].exists {
                return Err(step_error(i as u64, "precondition failed: CreateCF: column family already exists"));
            }
            let ghost before = *c;
            c.cfs[k].exists = true;
            proof {
                before.lemma_replaced(*c, k as int);
            }
        },
        Op::DropCf { name } => {
            let k = c.cf(name);
            if !c.cfs[k].exists {
                return Err(step_error(i as u64, "precondition failed: DropCF: no such column family"));
            }
            proof {
                let t = c.cfs@[k as int].tables@;
                if t.dom().len() == 0 {
                    t.dom().lemma_len0_is_empty();
                    assert(t =~= Map::<u64, u32>::empty());
                }
            }
            if c.cfs[k].tables.len() != 0 {
                return Err(step_error(i as u64, "precondition failed: DropCF: still has tables; the same edit must remove them"));
            }
            let ghost before = *c;
            c.cfs[k].exists = false;
            proof {
                before.lemma_replaced(*c, k as int);
            }
        },
        Op::SetCfConfig { name, .. } => {
            let k = c.cf(name);
            if !c.cfs[k].exists {
                return Err(step_error(i as u64, "precondition failed: SetCFConfig: no such column family"));
            }
        },
        Op::SetNextFileId(v) => {
            if *v < c.next_file_id {
                return Err(step_error(i as u64, "precondition failed: SetNextFileID: below the current value"));
            }
            c.next_file_id = *v;
            assert(c.catalog().cfs =~= c0.cfs);
        },
        Op::SetGlobalSeq(v) => {
            if *v < c.global_seq {
                return Err(step_error(i as u64, "precondition failed: SetGlobalSeq: below the current value"));
            }
            c.global_seq = *v;
            assert(c.catalog().cfs =~= c0.cfs);
        },
        Op::SetWalLayout(layout) => {
            if *layout != WalLayout::Unified || c.wal_layout == WalLayout::Unified {
                return Err(step_error(i as u64, "precondition failed: SetWalLayout: the layout flip is one-way, once"));
            }
            c.wal_layout = WalLayout::Unified;
            assert(c.catalog().cfs =~= c0.cfs);
        },
        Op::SetNonce(nonce) => {
            if c.instance_nonce.is_some() {
                return Err(step_error(i as u64, "precondition failed: SetNonce: the nonce is minted once"));
            }
            c.instance_nonce = Some(*nonce);
            assert(c.catalog().cfs =~= c0.cfs);
        },
        Op::SetCapability(bits) => {
            check_caps(*bits)?;
            c.caps = c.caps | *bits;
            assert(c.catalog().cfs =~= c0.cfs);
        },
        Op::RemoveTables { cf, ids } => {
            let k = c.cf(cf);
            let ghost before = *c;
            let ghost t0 = c.cfs@[k as int].tables@;
            let mut j: usize = 0;
            assert(ids@.skip(0) =~= ids@);
            while j < ids.len()
                invariant
                    j <= ids@.len(),
                    before.inv(),
                    c.inv(),
                    c.seed == before.seed,
                    k < before.cfs@.len(),
                    c.cfs@.len() == before.cfs@.len(),
                    c.cfs@[k as int].name@ == before.cfs@[k as int].name@,
                    c.cfs@[k as int].exists == before.cfs@[k as int].exists,
                    forall|x: int| 0 <= x < before.cfs@.len() && x != k ==> c.cfs@[x] == before.cfs@[x],
                    crate::catalog::remove_ids(t0, ids@) == crate::catalog::remove_ids(c.cfs@[k as int].tables@, ids@.skip(j as int)),
                    c.next_file_id == before.next_file_id,
                    c.global_seq == before.global_seq,
                    c.wal_layout == before.wal_layout,
                    c.instance_nonce == before.instance_nonce,
                    c.caps == before.caps,
                    before.catalog() == c0,
                    c0 == old(c).catalog(),
                    before.seed == old(c).seed,
                    before.cfs@[k as int].name@ == cf@,
                    before.cfs@[k as int].exists == c0.cfs.dom().contains(cf@),
                    t0 == crate::catalog::met_tables(c0, cf@),
                    *op matches Op::RemoveTables { cf: ocf, ids: oids } && ocf == *cf && oids == *ids,
                decreases ids@.len() - j,
            {
                broadcast use group_hash_axioms;

                let ghost tj = c.cfs@[k as int].tables@;
                let ghost sj = ids@.skip(j as int);
                assert(sj.skip(1) =~= ids@.skip(j + 1));
                let gone = c.cfs[k].tables.remove(&ids[j]);
                if gone.is_none() {
                    proof {
                        assert(c.cfs@[k as int].tables@ =~= tj);
                        before.lemma_replaced(*c, k as int);
                    }
                    return Err(step_error(i as u64, "precondition failed: RemoveTables: table absent"));
                }
                assert(c.cfs@[k as int].tables@ =~= tj.remove(ids@[j as int]));
                j += 1;
            }
            proof {
                before.lemma_replaced(*c, k as int);
            }
        },
    }
    Ok(())
}

fn validate_ops(c: &mut Candidate<'_>, edit: &VersionEdit) -> (r: Result<(), OndaError>)
    requires
        old(c).inv(),
    ensures
        final(c).inv(),
        final(c).seed == old(c).seed,
        final(c).catalog() == crate::catalog::check_ops(old(c).catalog(), edit@).0,
        answers(
            r,
            crate::catalog::check_ops(old(c).catalog(), edit@).1,
            crate::catalog::accepted_ops(old(c).catalog(), edit@),
        ),
{
    let ghost ops = edit@;
    let mut i: usize = 0;
    assert(ops.skip(0) =~= ops);
    while i < edit.ops.len()
        invariant
            i <= edit.ops@.len(),
            ops == crate::edit_codec::op_views(edit.ops@),
            c.inv(),
            c.seed == old(c).seed,
            crate::catalog::check_ops(old(c).catalog(), ops) == crate::catalog::check_ops(c.catalog(), ops.skip(i as int)),
            crate::catalog::accepted_ops(old(c).catalog(), ops) == i + crate::catalog::accepted_ops(c.catalog(), ops.skip(i as int)),
        decreases edit.ops@.len() - i,
    {
        proof {
            assert(ops.skip(i as int).skip(1) =~= ops.skip(i + 1));
            assert(ops.skip(i as int)[0] == edit.ops@[i as int]@);
        }
        validate_op(c, i, &edit.ops[i])?;
        i += 1;
    }
    Ok(())
}

// ---------------------------------------------------------------------------
// Applying an edit
// ---------------------------------------------------------------------------

/// Drop the tables whose id is among `ids`.
fn retain_tables(v: &mut Vec<SstMeta>, ids: &Vec<u64>)
    ensures
        crate::manifest::sst_views(final(v)@) == crate::catalog::tables_without(crate::manifest::sst_views(old(v)@), ids@),
{
    broadcast use group_hash_axioms;

    let mut dropped: HashSet<u64> = HashSet::new();
    let mut n: usize = 0;
    while n < ids.len()
        invariant
            n <= ids@.len(),
            forall|x: u64| dropped@.contains(x) <==> exists|q: int| 0 <= q < n && #[trigger] ids@[q] == x,
        decreases ids@.len() - n,
    {
        broadcast use group_hash_axioms;

        let ghost d0 = dropped@;
        dropped.insert(ids[n]);
        assert forall|x: u64| dropped@.contains(x) <==> exists|q: int| 0 <= q < n + 1 && #[trigger] ids@[q] == x by {
            if x == ids@[n as int] {
                assert(ids@[n as int] == x);
            }
        }
        n += 1;
    }
    assert(forall|x: u64| dropped@.contains(x) <==> ids@.contains(x));
    let ghost all = crate::manifest::sst_views(v@);
    let ghost mut k: int = 0;
    let mut i: usize = 0;
    assert(all.take(0) =~= Seq::empty());
    assert(crate::catalog::tables_without(all.take(0), ids@) + all.skip(0) =~= all);
    while i < v.len()
        invariant
            0 <= k <= all.len(),
            i <= v@.len(),
            i == crate::catalog::tables_without(all.take(k), ids@).len(),
            crate::manifest::sst_views(v@) == crate::catalog::tables_without(all.take(k), ids@) + all.skip(k),
            forall|x: u64| dropped@.contains(x) <==> ids@.contains(x),
        decreases v@.len() - i,
    {
        broadcast use group_hash_axioms;

        let ghost v0 = v@;
        let ghost done = crate::catalog::tables_without(all.take(k), ids@);
        proof {
            assert(crate::manifest::sst_views(v@).len() == v@.len());
            assert(k < all.len());
            assert(crate::manifest::sst_views(v@)[i as int] == all.skip(k)[0]);
            assert(v@[i as int]@ == all[k]);
            assert(all.take(k + 1).drop_last() =~= all.take(k));
            assert(all.take(k + 1).last() == all[k]);
        }
        if dropped.contains(&v[i].id) {
            v.remove(i);
            proof {
                let a = crate::manifest::sst_views(v@);
                let b = done + all.skip(k + 1);
                assert(v@ =~= v0.remove(i as int));
                assert(a.len() == b.len());
                assert forall|q: int| 0 <= q < a.len() implies a[q] == b[q] by {
                    if q < i {
                        assert(crate::manifest::sst_views(v0)[q] == done[q]);
                        assert(a[q] == v0[q]@);
                    } else {
                        assert(crate::manifest::sst_views(v0)[q + 1] == all.skip(k)[q + 1 - done.len()]);
                        assert(a[q] == v0[q + 1]@);
                    }
                }
                assert(a =~= b);
            }
        } else {
            i += 1;
            assert(crate::manifest::sst_views(v@) =~= done.push(all[k]) + all.skip(k + 1));
        }
        proof {
            k = k + 1;
        }
    }
    proof {
        assert(crate::manifest::sst_views(v@).len() == v@.len());
        assert(k == all.len());
        assert(all.take(k) =~= all);
        assert(crate::catalog::tables_without(all, ids@) + all.skip(k) =~= crate::catalog::tables_without(all, ids@));
    }
}

/// Drop the families called `name`.
fn retain_cfs(v: &mut Vec<CfManifest>, name: &String)
    ensures
        crate::manifest::cf_views(final(v)@) == crate::catalog::cfs_without(crate::manifest::cf_views(old(v)@), name@),
{
    let ghost all = crate::manifest::cf_views(v@);
    let ghost mut k: int = 0;
    let mut i: usize = 0;
    assert(all.take(0) =~= Seq::empty());
    assert(crate::catalog::cfs_without(all.take(0), name@) + all.skip(0) =~= all);
    while i < v.len()
        invariant
            0 <= k <= all.len(),
            i <= v@.len(),
            i == crate::catalog::cfs_without(all.take(k), name@).len(),
            crate::manifest::cf_views(v@) == crate::catalog::cfs_without(all.take(k), name@) + all.skip(k),
        decreases v@.len() - i,
    {
        let ghost v0 = v@;
        let ghost done = crate::catalog::cfs_without(all.take(k), name@);
        proof {
            assert(crate::manifest::cf_views(v@).len() == v@.len());
            assert(k < all.len());
            assert(crate::manifest::cf_views(v@)[i as int] == all.skip(k)[0]);
            assert(v@[i as int]@ == all[k]);
            assert(all.take(k + 1).drop_last() =~= all.take(k));
            assert(all.take(k + 1).last() == all[k]);
        }
        if v[i].name == *name {
            v.remove(i);
            proof {
                let a = crate::manifest::cf_views(v@);
                let b = done + all.skip(k + 1);
                assert(v@ =~= v0.remove(i as int));
                assert(a.len() == b.len());
                assert forall|q: int| 0 <= q < a.len() implies a[q] == b[q] by {
                    if q < i {
                        assert(crate::manifest::cf_views(v0)[q] == done[q]);
                        assert(a[q] == v0[q]@);
                    } else {
                        assert(crate::manifest::cf_views(v0)[q + 1] == all.skip(k)[q + 1 - done.len()]);
                        assert(a[q] == v0[q + 1]@);
                    }
                }
                assert(a =~= b);
            }
        } else {
            i += 1;
            assert(crate::manifest::cf_views(v@) =~= done.push(all[k]) + all.skip(k + 1));
        }
        proof {
            k = k + 1;
        }
    }
    proof {
        assert(crate::manifest::cf_views(v@).len() == v@.len());
        assert(k == all.len());
        assert(all.take(k) =~= all);
        assert(crate::catalog::cfs_without(all, name@) + all.skip(k) =~= crate::catalog::cfs_without(all, name@));
    }
}

/// Update the first table with the id `id`.
fn update_first(v: &mut Vec<SstMeta>, id: u64, update: &TableUpdate)
    ensures
        crate::manifest::sst_views(final(v)@) == (match crate::catalog::first_table(crate::manifest::sst_views(old(v)@), id) {
            Some(k) => crate::manifest::sst_views(old(v)@).update(k, crate::edit_codec::updated(update@, crate::manifest::sst_views(old(v)@)[k])),
            None => crate::manifest::sst_views(old(v)@),
        }),
{
    let ghost all = crate::manifest::sst_views(v@);
    let mut i: usize = 0;
    while i < v.len()
        invariant
            i <= v@.len(),
            all == crate::manifest::sst_views(v@),
            v@ == old(v)@,
            forall|j: int| 0 <= j < i ==> (#[trigger] all[j]).id != id,
        decreases v@.len() - i,
    {
        assert(all[i as int] == v@[i as int]@);
        if v[i].id == id {
            update.apply_to(&mut v[i]);
            proof {
                crate::catalog::lemma_first_table(all, id, i as int);
                assert(crate::manifest::sst_views(v@) =~= all.update(i as int, crate::edit_codec::updated(update@, all[i as int])));
            }
            return;
        }
        i += 1;
    }
    assert(crate::catalog::first_table(all, id) is None);
}

/// One step, on a catalog that accepts it.
fn mutate(m: &mut Manifest, op: &Op)
    ensures
        final(m)@ == crate::catalog::mutated(old(m)@, op@),
{
    let ghost m0 = m@;
    match op {
        Op::AddTable { cf, meta } => {
            if let Some(i) = cf_index(m, cf) {
                let ghost ss0 = m.cfs@[i as int].sstables@;
                if meta.level == 0 {
                    m.cfs[i].sstables.insert(0, meta.duplicate());
                    assert(crate::manifest::sst_views(m.cfs@[i as int].sstables@) =~= seq![meta@] + crate::manifest::sst_views(ss0));
                } else {
                    m.cfs[i].sstables.push(meta.duplicate());
                    assert(crate::manifest::sst_views(m.cfs@[i as int].sstables@) =~= crate::manifest::sst_views(ss0).push(meta@));
                }
                assert(m@.cfs =~= crate::catalog::mutated(m0, op@).cfs);
            }
        },
        Op::RemoveTable { cf, id, .. } => {
            if let Some(i) = cf_index(m, cf) {
                let mut ids: Vec<u64> = Vec::new();
                ids.push(*id);
                assert(ids@ =~= seq![*id]);
                retain_tables(&mut m.cfs[i].sstables, &ids);
                assert(m@.cfs =~= crate::catalog::mutated(m0, op@).cfs);
            }
        },
        Op::UpdateTable { cf, id, update } => {
            if let Some(i) = cf_index(m, cf) {
                update_first(&mut m.cfs[i].sstables, *id, update);
                assert(m@.cfs =~= crate::catalog::mutated(m0, op@).cfs);
            }
        },
        Op::CreateCf { name, config } => {
            m.cfs.push(CfManifest { name: name.clone(), config: config.clone(), sstables: Vec::new(), unified_id: None });
            assert(crate::manifest::sst_views(m.cfs@[m.cfs@.len() - 1].sstables@) =~= Seq::empty());
            assert(m@.cfs =~= crate::catalog::mutated(m0, op@).cfs);
        },
        Op::DropCf { name } => {
            retain_cfs(&mut m.cfs, name);
        },
        Op::SetCfConfig { name, config } => {
            if let Some(i) = cf_index(m, name) {
                m.cfs[i].config = config.clone();
                assert(m@.cfs =~= crate::catalog::mutated(m0, op@).cfs);
            }
        },
        Op::SetNextFileId(v) => {
            m.next_file_id = *v;
        },
        Op::SetGlobalSeq(v) => {
            m.global_seq = *v;
        },
        Op::SetWalLayout(layout) => {
            m.wal_layout = *layout;
        },
        Op::SetNonce(nonce) => {
            m.instance_nonce = Some(*nonce);
        },
        Op::SetCapability(bits) => {
            m.caps = m.caps | *bits;
        },
        Op::RemoveTables { cf, ids } => {
            if let Some(i) = cf_index(m, cf) {
                retain_tables(&mut m.cfs[i].sstables, ids);
                assert(m@.cfs =~= crate::catalog::mutated(m0, op@).cfs);
            }
        },
    }
}

fn mutate_all(m: &mut Manifest, edit: &VersionEdit)
    ensures
        final(m)@ == crate::catalog::mutated_all(old(m)@, edit@),
{
    let ghost ops = edit@;
    let mut i: usize = 0;
    assert(ops.skip(0) =~= ops);
    while i < edit.ops.len()
        invariant
            i <= edit.ops@.len(),
            ops == crate::edit_codec::op_views(edit.ops@),
            crate::catalog::mutated_all(old(m)@, ops) == crate::catalog::mutated_all(m@, ops.skip(i as int)),
        decreases edit.ops@.len() - i,
    {
        proof {
            assert(ops.skip(i as int).skip(1) =~= ops.skip(i + 1));
            assert(ops.skip(i as int)[0] == edit.ops@[i as int]@);
        }
        mutate(m, &edit.ops[i]);
        i += 1;
    }
}

/// Apply an edit, all of it or none: a refused edit leaves the catalog as it
/// was, and the error names the step that was refused.
pub fn apply_edit(m: &mut Manifest, edit: &VersionEdit) -> (r: Result<(), OndaError>)
    ensures
        match crate::catalog::check_ops(crate::catalog::direct_catalog(old(m)@), edit@).1 {
            None => r is Ok && final(m)@ == crate::catalog::mutated_all(old(m)@, edit@),
            Some(Refusal::Precondition) => r is Err && crate::edit_codec::blames_step(
                r->Err_0,
                crate::catalog::accepted_ops(crate::catalog::direct_catalog(old(m)@), edit@),
            ) && *final(m) == *old(m),
            Some(Refusal::Capability) => r is Err && r->Err_0 is UnsupportedFormat && *final(m) == *old(m),
        },
{
    let checked = {
        let mut c = Candidate {
            seed: Some(&*m),
            cfs: Vec::new(),
            next_file_id: m.next_file_id,
            global_seq: m.global_seq,
            wal_layout: m.wal_layout,
            instance_nonce: m.instance_nonce,
            caps: m.caps,
        };
        assert(c.catalog().cfs =~= crate::catalog::direct_catalog(m@).cfs);
        validate_ops(&mut c, edit)
    };
    match checked {
        Err(e) => Err(e),
        Ok(()) => {
            mutate_all(m, edit);
            Ok(())
        },
    }
}

/// Applies edits in order, keeping the index that preconditions need from one
/// edit to the next.
pub struct CatalogReplayer {
    manifest: Manifest,
    candidate: Candidate<'static>,
}

impl CatalogReplayer {
    /// The catalog as far as it has been replayed.
    pub closed spec fn manifest(self) -> ManifestView {
        self.manifest@
    }

    /// What the preconditions of the next edit look at.
    pub closed spec fn index(self) -> Catalog {
        self.candidate.catalog()
    }

    /// The index holds each family once.
    pub closed spec fn valid(self) -> bool {
        self.candidate.inv()
    }

    /// Start from a catalog.
    pub fn new(manifest: Manifest) -> (r: CatalogReplayer)
        ensures
            r.valid(),
            r.manifest() == manifest@,
            r.index() == crate::catalog::catalog_of(manifest@),
    {
        let candidate = Candidate::eager(&manifest);
        CatalogReplayer { manifest, candidate }
    }

    /// Apply one edit. A refused edit leaves the catalog as it was; what the
    /// steps before the refused one did to the index stays.
    pub fn apply(&mut self, edit: &VersionEdit) -> (r: Result<(), OndaError>)
        requires
            old(self).valid(),
        ensures
            final(self).valid(),
            final(self).index() == crate::catalog::check_ops(old(self).index(), edit@).0,
            match crate::catalog::check_ops(old(self).index(), edit@).1 {
                None => r is Ok && final(self).manifest() == crate::catalog::mutated_all(old(self).manifest(), edit@),
                Some(Refusal::Precondition) => r is Err && crate::edit_codec::blames_step(
                    r->Err_0,
                    crate::catalog::accepted_ops(old(self).index(), edit@),
                ) && final(self).manifest() == old(self).manifest(),
                Some(Refusal::Capability) => r is Err && r->Err_0 is UnsupportedFormat && final(self).manifest() == old(
                    self,
                ).manifest(),
            },
    {
        validate_ops(&mut self.candidate, edit)?;
        mutate_all(&mut self.manifest, edit);
        Ok(())
    }

    /// The replayed catalog.
    pub fn finish(self) -> (r: Manifest)
        ensures
            r@ == self.manifest(),
    {
        self.manifest
    }
}

// ---------------------------------------------------------------------------
// When to take a snapshot
// ---------------------------------------------------------------------------

/// A log of no more bytes than this triggers no snapshot by its size.
pub const SNAPSHOT_MIN_EDIT_BYTES: u64 = 0x40_0000;
/// A log that holds this many edits always triggers one.
pub const MAX_EDITS_BEFORE_SNAPSHOT: u64 = 4096;

/// Whether a snapshot is due: the log has outgrown its snapshot, or holds so
/// many edits that reading them again takes too long.
pub fn snapshot_due(edit_bytes: u64, edit_count: u64, snapshot_bytes: u64) -> (r: bool)
    ensures
        r == ((edit_bytes > SNAPSHOT_MIN_EDIT_BYTES && edit_bytes > snapshot_bytes) || edit_count
            >= MAX_EDITS_BEFORE_SNAPSHOT),
{
    let bound: u64 = if snapshot_bytes > SNAPSHOT_MIN_EDIT_BYTES { snapshot_bytes } else { SNAPSHOT_MIN_EDIT_BYTES };
    edit_bytes > bound || edit_count >= MAX_EDITS_BEFORE_SNAPSHOT
}

/// Turn the catalog into the next snapshot, which contains the edits through
/// `applied_through`, and give the header of the log that follows it.
pub fn begin_snapshot(m: &mut Manifest, applied_through: u64) -> (h: EditLogHeader)
    requires
        old(m).generation < u64::MAX,
        applied_through < u64::MAX,
    ensures
        final(m)@ == (ManifestView {
            generation: (old(m).generation + 1) as u64,
            applied_through,
            next_edit_id: (applied_through + 1) as u64,
            ..old(m)@
        }),
        h == (EditLogHeader {
            base_applied_through: applied_through,
            snapshot_generation: (old(m).generation + 1) as u64,
        }),
{
    m.generation = m.generation + 1;
    m.applied_through = applied_through;
    m.next_edit_id = applied_through + 1;
    EditLogHeader { base_applied_through: applied_through, snapshot_generation: m.generation }
}

// ---------------------------------------------------------------------------
// Laws of the log
// ---------------------------------------------------------------------------

/// Whether a record can be written and read back.
pub open spec fn record_fits(r: RecordView) -> bool {
    crate::edit_trip::edit_fits(r.ops) && crate::edit_codec::payload_wire(r.edit_id, r.ops).len() <= MAX_EDIT_RECORD_BYTES
}

proof fn lemma_framed(prefix: Seq<u8>, payload: Seq<u8>, rest: Seq<u8>)
    requires
        payload.len() <= MAX_EDIT_RECORD_BYTES,
    ensures
        ({
            let d = prefix + framed(payload) + rest;
            let off = prefix.len() as int;
            &&& framed(payload).len() == 8 + payload.len()
            &&& d.subrange(off, off + 4) == crate::encoding::le_bytes(payload.len(), 4)
            &&& crate::encoding::le_value(d.subrange(off, off + 4)) == payload.len()
            &&& crate::encoding::le_value(d.subrange(off + 4, off + 8)) == crate::encoding::crc32c(payload)
            &&& d.subrange(off + 8, off + 8 + payload.len()) == payload
        }),
{
    let d = prefix + framed(payload) + rest;
    let off = prefix.len() as int;
    crate::encoding::lemma_pow256();
    crate::encoding::lemma_le_round_trip(payload.len(), 4);
    crate::encoding::lemma_le_round_trip(crate::encoding::crc32c(payload) as nat, 4);
    assert(d.subrange(off, off + 4) =~= crate::encoding::le_bytes(payload.len(), 4));
    assert(d.subrange(off + 4, off + 8) =~= crate::encoding::le_bytes(crate::encoding::crc32c(payload) as nat, 4));
    assert(d.subrange(off + 8, off + 8 + payload.len()) =~= payload);
}

proof fn lemma_record_is_read(prefix: Seq<u8>, r: RecordView, rest: Seq<u8>)
    requires
        record_fits(r),
    ensures
        check_frame(prefix + record_wire(r) + rest, prefix.len() as int) == FrameCheck::Record(
            r,
            (prefix + record_wire(r)).len() as int,
        ),
{
    lemma_framed(prefix, crate::edit_codec::payload_wire(r.edit_id, r.ops), rest);
    crate::edit_trip::lemma_payload_round_trip(r.edit_id, r.ops);
}

/// Records written one after another are read back in order, from wherever
/// they start; reading stops cleanly where the bytes after them are a torn
/// record or nothing, and says where.
pub proof fn lemma_log_round_trip(prefix: Seq<u8>, rs: Seq<RecordView>, tail: Seq<u8>)
    requires
        forall|i: int| 0 <= i < rs.len() ==> record_fits(#[trigger] rs[i]),
        check_frame(prefix + log_wire(rs) + tail, (prefix + log_wire(rs)).len() as int) is Torn,
    ensures
        parse_records(prefix + log_wire(rs) + tail, prefix.len() as int) == Some(
            (rs, (prefix + log_wire(rs)).len() as int),
        ),
    decreases rs.len(),
{
    let d = prefix + log_wire(rs) + tail;
    if rs.len() == 0 {
        crate::encoding::lemma_cat_empty(prefix);
        assert(rs =~= Seq::empty());
    } else {
        let r = rs[0];
        let w = record_wire(r);
        let more = log_wire(rs.skip(1));
        assert forall|i: int| 0 <= i < rs.skip(1).len() implies record_fits(#[trigger] rs.skip(1)[i]) by {
            assert(rs.skip(1)[i] == rs[i + 1]);
        }
        crate::encoding::lemma_cat_assoc(prefix, w, more);
        crate::encoding::lemma_cat_assoc(prefix + w, more, tail);
        lemma_log_round_trip(prefix + w, rs.skip(1), tail);
        lemma_record_is_read(prefix, r, more + tail);
        assert(rs =~= seq![r] + rs.skip(1));
    }
}

/// A record that was only partly written is a torn tail, wherever the write
/// stopped: it never makes the log before it unreadable.
pub proof fn lemma_partial_record_is_torn(before: Seq<u8>, r: RecordView, cut: int)
    requires
        crate::edit_codec::payload_wire(r.edit_id, r.ops).len() <= MAX_EDIT_RECORD_BYTES,
        0 <= cut < record_wire(r).len(),
    ensures
        check_frame(before + record_wire(r).take(cut), before.len() as int) is Torn,
{
    let payload = crate::edit_codec::payload_wire(r.edit_id, r.ops);
    let d = before + record_wire(r).take(cut);
    let off = before.len() as int;
    lemma_framed(before, payload, Seq::empty());
    if cut >= 8 {
        let full = before + framed(payload) + Seq::<u8>::empty();
        assert(d.subrange(off, off + 4) =~= full.subrange(off, off + 4));
    }
}

/// After its checksum is damaged, a complete record is corruption, not a torn
/// tail: nothing after it is read, and neither is the log.
pub proof fn lemma_damaged_record_is_corruption(prefix: Seq<u8>, payload: Seq<u8>, crc: u32, rest: Seq<u8>)
    requires
        payload.len() <= MAX_EDIT_RECORD_BYTES,
        crc != crate::encoding::crc32c(payload),
    ensures
        parse_records(
            prefix + (crate::encoding::le_bytes(payload.len(), 4) + (crate::encoding::le_bytes(crc as nat, 4) + payload)) + rest,
            prefix.len() as int,
        ) is None,
{
    let d = prefix + (crate::encoding::le_bytes(payload.len(), 4) + (crate::encoding::le_bytes(crc as nat, 4) + payload)) + rest;
    let off = prefix.len() as int;
    crate::encoding::lemma_pow256();
    crate::encoding::lemma_le_round_trip(payload.len(), 4);
    crate::encoding::lemma_le_round_trip(crc as nat, 4);
    assert(d.subrange(off, off + 4) =~= crate::encoding::le_bytes(payload.len(), 4));
    assert(d.subrange(off + 4, off + 8) =~= crate::encoding::le_bytes(crc as nat, 4));
    assert(d.subrange(off + 8, off + 8 + payload.len()) =~= payload);
}

// ---------------------------------------------------------------------------
// Recovery
// ---------------------------------------------------------------------------

/// The largest table id and the largest sequence in some tables, and at least
/// the given ones.
pub open spec fn table_maxima(ss: Seq<SstMetaView>, from: (u64, u64)) -> (u64, u64)
    decreases ss.len(),
{
    if ss.len() == 0 {
        from
    } else {
        let r = table_maxima(ss.drop_last(), from);
        (
            if ss.last().id > r.0 { ss.last().id } else { r.0 },
            if ss.last().max_seq > r.1 { ss.last().max_seq } else { r.1 },
        )
    }
}

pub open spec fn cf_maxima(cfs: Seq<CfView>) -> (u64, u64)
    decreases cfs.len(),
{
    if cfs.len() == 0 {
        (0, 0)
    } else {
        table_maxima(cfs.last().sstables, cf_maxima(cfs.drop_last()))
    }
}

/// A catalog whose file-id allocator and sequence dominate every table in it.
pub open spec fn reconciled_view(m: ManifestView) -> ManifestView {
    let x = cf_maxima(m.cfs);
    ManifestView {
        next_file_id: if x.0 < m.next_file_id {
            m.next_file_id
        } else if x.0 == u64::MAX {
            u64::MAX
        } else {
            (x.0 + 1) as u64
        },
        global_seq: if x.1 > m.global_seq { x.1 } else { m.global_seq },
        ..m
    }
}

proof fn lemma_table_maxima(ss: Seq<SstMetaView>, from: (u64, u64))
    ensures
        from.0 <= table_maxima(ss, from).0,
        from.1 <= table_maxima(ss, from).1,
        forall|k: int| 0 <= k < ss.len() ==> (#[trigger] ss[k]).id <= table_maxima(ss, from).0 && ss[k].max_seq
            <= table_maxima(ss, from).1,
    decreases ss.len(),
{
    if ss.len() > 0 {
        lemma_table_maxima(ss.drop_last(), from);
        assert forall|k: int| 0 <= k < ss.len() implies (#[trigger] ss[k]).id <= table_maxima(ss, from).0 && ss[k].max_seq
            <= table_maxima(ss, from).1 by {
            if k < ss.len() - 1 {
                assert(ss.drop_last()[k] == ss[k]);
            }
        }
    }
}

proof fn lemma_cf_maxima(cfs: Seq<CfView>)
    ensures
        forall|i: int, k: int| 0 <= i < cfs.len() && 0 <= k < cfs[i].sstables.len() ==> (#[trigger] cfs[i].sstables[k]).id
            <= cf_maxima(cfs).0 && cfs[i].sstables[k].max_seq <= cf_maxima(cfs).1,
    decreases cfs.len(),
{
    if cfs.len() > 0 {
        let d = cfs.drop_last();
        lemma_cf_maxima(d);
        lemma_table_maxima(cfs.last().sstables, cf_maxima(d));
        assert forall|i: int, k: int| 0 <= i < cfs.len() && 0 <= k < cfs[i].sstables.len() implies (#[trigger] cfs[i].sstables[k]).id
            <= cf_maxima(cfs).0 && cfs[i].sstables[k].max_seq <= cf_maxima(cfs).1 by {
            if i < d.len() {
                assert(d[i] == cfs[i]);
                assert(d[i].sstables[k] == cfs[i].sstables[k]);
            } else {
                assert(cfs.last().sstables[k] == cfs[i].sstables[k]);
            }
        }
    }
}

/// After reconciliation no table has an id that the allocator could hand out
/// again, nor a sequence above the global one.
pub proof fn lemma_reconciled_dominates(m: ManifestView, i: int, k: int)
    requires
        0 <= i < m.cfs.len(),
        0 <= k < m.cfs[i].sstables.len(),
        m.cfs[i].sstables[k].id < u64::MAX,
    ensures
        m.cfs[i].sstables[k].id < reconciled_view(m).next_file_id,
        m.cfs[i].sstables[k].max_seq <= reconciled_view(m).global_seq,
{
    lemma_cf_maxima(m.cfs);
    assert(m.cfs[i].sstables[k].id <= cf_maxima(m.cfs).0);
}

/// Raise the file-id allocator and the sequence above every table.
pub fn reconciled(m: Manifest) -> (r: Manifest)
    ensures
        r@ == reconciled_view(m@),
{
    let mut m = m;
    let ghost cfs = m@.cfs;
    let mut max_id: u64 = 0;
    let mut max_seq: u64 = 0;
    let mut i: usize = 0;
    assert(cfs.take(0) =~= Seq::empty());
    while i < m.cfs.len()
        invariant
            i <= m.cfs@.len(),
            cfs == m@.cfs,
            (max_id, max_seq) == cf_maxima(cfs.take(i as int)),
        decreases m.cfs@.len() - i,
    {
        let ghost ss = cfs[i as int].sstables;
        let ghost from = (max_id, max_seq);
        let mut k: usize = 0;
        assert(ss.take(0) =~= Seq::empty());
        while k < m.cfs[i].sstables.len()
            invariant
                i < m.cfs@.len(),
                cfs == m@.cfs,
                ss == cfs[i as int].sstables,
                k <= m.cfs@[i as int].sstables@.len(),
                (max_id, max_seq) == table_maxima(ss.take(k as int), from),
            decreases m.cfs@[i as int].sstables@.len() - k,
        {
            assert(ss[k as int] == m.cfs@[i as int].sstables@[k as int]@);
            assert(ss.take(k + 1).drop_last() =~= ss.take(k as int));
            let id = m.cfs[i].sstables[k].id;
            let seq = m.cfs[i].sstables[k].max_seq;
            if id > max_id {
                max_id = id;
            }
            if seq > max_seq {
                max_seq = seq;
            }
            k += 1;
        }
        assert(ss.take(ss.len() as int) =~= ss);
        assert(cfs.take(i + 1).drop_last() =~= cfs.take(i as int));
        i += 1;
    }
    assert(cfs.take(cfs.len() as int) =~= cfs);
    if max_id >= m.next_file_id {
        m.next_file_id = if max_id == u64::MAX { u64::MAX } else { max_id + 1 };
    }
    if max_seq > m.global_seq {
        m.global_seq = max_seq;
    }
    m
}

/// How a replay ends.
pub enum Replayed {
    /// The log contradicts itself, the snapshot or the format.
    Corrupt,
    /// The log needs what is not implemented here.
    Unsupported,
    /// The catalog, and the last edit it contains.
    Catalog(ManifestView, u64),
}

/// Replay the records from the `i`-th on. Numbers count up from `base + 1`
/// without a gap; edits that the snapshot contains are passed over.
pub open spec fn replay_from(
    m: ManifestView,
    c: Catalog,
    rs: Seq<RecordView>,
    i: int,
    base: u64,
    snapshot_through: u64,
    applied: u64,
) -> Replayed
    decreases rs.len() - i,
{
    if i >= rs.len() || i < 0 {
        Replayed::Catalog(m, applied)
    } else if rs[i].edit_id != base + 1 + i {
        Replayed::Corrupt
    } else if rs[i].edit_id <= snapshot_through {
        replay_from(m, c, rs, i + 1, base, snapshot_through, applied)
    } else {
        let k = crate::catalog::check_ops(c, rs[i].ops);
        match k.1 {
            Some(Refusal::Precondition) => Replayed::Corrupt,
            Some(Refusal::Capability) => Replayed::Unsupported,
            None => replay_from(crate::catalog::mutated_all(m, rs[i].ops), k.0, rs, i + 1, base, snapshot_through, rs[i].edit_id),
        }
    }
}

/// The catalog of a snapshot and the log beside it.
pub open spec fn recovered(m: ManifestView, log: Option<Seq<u8>>) -> Replayed {
    match log {
        None => Replayed::Catalog(reconciled_view(m), m.applied_through),
        Some(data) => if m.caps & CAP_MANIFEST_EDITS == 0 {
            Replayed::Corrupt
        } else {
            match check_header(data) {
                HeaderCheck::Legacy | HeaderCheck::Schema => Replayed::Unsupported,
                HeaderCheck::Short | HeaderCheck::Foreign | HeaderCheck::Damaged => Replayed::Corrupt,
                HeaderCheck::Good(h) => if h.base_applied_through > m.applied_through {
                    Replayed::Corrupt
                } else {
                    match parse_records(data, 32) {
                        None => Replayed::Corrupt,
                        Some((rs, _)) => match replay_from(
                            m,
                            crate::catalog::catalog_of(m),
                            rs,
                            0,
                            h.base_applied_through,
                            m.applied_through,
                            m.applied_through,
                        ) {
                            Replayed::Catalog(m2, applied) => Replayed::Catalog(
                                reconciled_view(
                                    ManifestView {
                                        applied_through: applied,
                                        next_edit_id: if applied == u64::MAX {
                                            u64::MAX
                                        } else {
                                            (applied + 1) as u64
                                        },
                                        ..m2
                                    },
                                ),
                                applied,
                            ),
                            x => x,
                        },
                    }
                },
            }
        },
    }
}

/// The catalog that a snapshot and the log beside it (if there is one) stand
/// for.
pub fn recover_from(m: Manifest, log: Option<&[u8]>) -> (r: Result<Manifest, OndaError>)
    ensures
        match recovered(m@, match log { Some(d) => Some(d@), None => None }) {
            Replayed::Catalog(m2, _) => r is Ok && r->Ok_0@ == m2,
            Replayed::Corrupt => r is Err && r->Err_0 is Corruption,
            Replayed::Unsupported => r is Err && r->Err_0 is UnsupportedFormat,
        },
{
    let data = match log {
        None => {
            return Ok(reconciled(m));
        },
        Some(d) => d,
    };
    if m.caps & CAP_MANIFEST_EDITS == 0 {
        return Err(OndaError::Corruption(
            String::from_str("manifest edit log: present without CAP_MANIFEST_EDITS in the snapshot"),
        ));
    }
    let header = EditLogHeader::decode(data)?;
    if header.base_applied_through > m.applied_through {
        return Err(OndaError::Corruption(
            String::from_str("manifest edit log: base_applied_through is ahead of the snapshot's applied_through"),
        ));
    }
    let (records, _) = decode_records(data)?;
    let base = header.base_applied_through;
    let snapshot_through = m.applied_through;
    let mut applied: u64 = snapshot_through;
    let ghost mv = m@;
    let ghost rs = record_views(records@);
    let mut replayer = CatalogReplayer::new(m);
    let mut i: usize = 0;
    while i < records.len()
        invariant
            i <= records@.len(),
            rs == record_views(records@),
            replayer.valid(),
            replay_from(mv, crate::catalog::catalog_of(mv), rs, 0, base, snapshot_through, snapshot_through) == replay_from(
                replayer.manifest(),
                replayer.index(),
                rs,
                i as int,
                base,
                snapshot_through,
                applied,
            ),
            recovered(mv, Some(data@)) == (match replay_from(
                mv,
                crate::catalog::catalog_of(mv),
                rs,
                0,
                base,
                snapshot_through,
                snapshot_through,
            ) {
                Replayed::Catalog(m2, applied) => Replayed::Catalog(
                    reconciled_view(
                        ManifestView {
                            applied_through: applied,
                            next_edit_id: if applied == u64::MAX { u64::MAX } else { (applied + 1) as u64 },
                            ..m2
                        },
                    ),
                    applied,
                ),
                x => x,
            }),
            mv == m@,
            log == Some(data),
        decreases records@.len() - i,
    {
        let id = records[i].edit_id;
        assert(rs[i as int] == records@[i as int]@);
        if id <= base || (id - base) - 1 != i as u64 {
            return Err(OndaError::Corruption(
                with_number("manifest edit log: record id ", id, " breaks the sequence; a gap or a duplicate is never a torn tail"),
            ));
        }
        if id > snapshot_through {
            match replayer.apply(&records[i].edit) {
                Ok(()) => {},
                Err(OndaError::Corruption(msg)) => {
                    let mut text = with_number("manifest edit ", id, ": ");
                    text.append(msg.as_str());
                    return Err(OndaError::Corruption(text));
                },
                Err(e) => {
                    return Err(e);
                },
            }
            applied = id;
        }
        i += 1;
    }
    let mut m = replayer.finish();
    m.applied_through = applied;
    m.next_edit_id = if applied == u64::MAX { u64::MAX } else { applied + 1 };
    Ok(reconciled(m))
}

/// Where a log that was just replayed goes on: its header, the end of its
/// last complete record, and how many records it holds.
pub fn append_position(data: &[u8]) -> (r: Result<(EditLogHeader, usize, usize), OndaError>)
    ensures
        match (check_header(data@), parse_records(data@, 32)) {
            (HeaderCheck::Good(h), Some((rs, end))) => r == Ok::<(EditLogHeader, usize, usize), OndaError>(
                (h, end as usize, rs.len() as usize),
            ) && end >= 0 && end <= data.len(),
            (HeaderCheck::Legacy, _) | (HeaderCheck::Schema, _) => r is Err && r->Err_0 is UnsupportedFormat,
            _ => r is Err && r->Err_0 is Corruption,
        },
{
    let header = EditLogHeader::decode(data)?;
    let (records, end) = decode_records(data)?;
    proof {
        lemma_records_end(data@, 32);
        assert(record_views(records@).len() == records@.len());
    }
    Ok((header, end, records.len()))
}

proof fn lemma_records_end(data: Seq<u8>, off: int)
    requires
        0 <= off <= data.len(),
    ensures
        parse_records(data, off) matches Some((rs, end)) ==> off <= end <= data.len(),
    decreases data.len() - off,
{
    match check_frame(data, off) {
        FrameCheck::Record(r, next) => {
            lemma_records_end(data, next);
        },
        _ => {},
    }
}

/// Edits already contained in a snapshot change nothing when they are met
/// again: a log whose records all come before the snapshot's last edit leaves
/// the catalog as the snapshot has it.
pub proof fn lemma_contained_edits_are_passed_over(
    m: ManifestView,
    c: Catalog,
    rs: Seq<RecordView>,
    i: int,
    base: u64,
    through: u64,
)
    requires
        0 <= i <= rs.len(),
        forall|k: int| i <= k < rs.len() ==> (#[trigger] rs[k]).edit_id == base + 1 + k && rs[k].edit_id <= through,
    ensures
        replay_from(m, c, rs, i, base, through, through) == Replayed::Catalog(m, through),
    decreases rs.len() - i,
{
    if i < rs.len() {
        assert(rs[i].edit_id == base + 1 + i);
        lemma_contained_edits_are_passed_over(m, c, rs, i + 1, base, through);
    }
}

// ---------------------------------------------------------------------------
// What is read is what was written
// ---------------------------------------------------------------------------

/// A header that is accepted is the header that would be written for what it
/// says: its magic, its schema and its checksum are all as they should be.
pub proof fn lemma_good_header_is_its_own(data: Seq<u8>, h: EditLogHeader)
    requires
        check_header(data) == HeaderCheck::Good(h),
    ensures
        data.take(32) == header_wire(h),
{
    crate::encoding::lemma_pow256();
    let a = data.take(8);
    let b = data.subrange(8, 12);
    let c = data.subrange(12, 20);
    let d = data.subrange(20, 28);
    let e = data.subrange(28, 32);
    crate::encoding::lemma_le_value_bytes(b);
    crate::encoding::lemma_le_value_bytes(c);
    crate::encoding::lemma_le_value_bytes(d);
    crate::encoding::lemma_le_value_bytes(e);
    crate::encoding::lemma_le_value_bound(c);
    crate::encoding::lemma_le_value_bound(d);
    assert(data.take(28) =~= a + (b + (c + d)));
    assert(header_body(h) == data.take(28));
    assert(data.take(32) =~= data.take(28) + e);
}

/// The steps of the edits behind a number, one after the other.
pub open spec fn steps_after(rs: Seq<RecordView>, through: u64) -> Seq<OpView>
    decreases rs.len(),
{
    if rs.len() == 0 {
        Seq::empty()
    } else if rs[0].edit_id <= through {
        steps_after(rs.skip(1), through)
    } else {
        rs[0].ops + steps_after(rs.skip(1), through)
    }
}

/// Recovery replays a log by applying the steps of every edit that the snapshot
/// does not hold, in order; it answers with what one edit of all those steps
/// leaves, and with the number of the last edit. It does so where the edits
/// are numbered without a gap and the steps are accepted.
pub proof fn lemma_replay_applies_every_edit(
    m: ManifestView,
    c: Catalog,
    rs: Seq<RecordView>,
    i: int,
    base: u64,
    through: u64,
    applied: u64,
)
    requires
        0 <= i <= rs.len(),
        forall|k: int| i <= k < rs.len() ==> (#[trigger] rs[k]).edit_id == base + 1 + k,
        crate::catalog::check_ops(c, steps_after(rs.skip(i), through)).1 is None,
    ensures
        ({
            let last = if i < rs.len() && rs.last().edit_id > through { rs.last().edit_id } else { applied };
            replay_from(m, c, rs, i, base, through, applied) == Replayed::Catalog(
                crate::catalog::mutated_all(m, steps_after(rs.skip(i), through)),
                last,
            )
        }),
    decreases rs.len() - i,
{
    let s = rs.skip(i);
    if i < rs.len() {
        let r = rs[i];
        assert(s[0] == r);
        assert(s.skip(1) =~= rs.skip(i + 1));
        assert(r.edit_id == base + 1 + i);
        let rest = steps_after(rs.skip(i + 1), through);
        if r.edit_id <= through {
            lemma_replay_applies_every_edit(m, c, rs, i + 1, base, through, applied);
            if i + 1 == rs.len() {
                assert(rs.last() == r);
            }
        } else {
            crate::catalog::lemma_edits_join(m, c, r.ops, rest);
            let k = crate::catalog::check_ops(c, r.ops);
            lemma_replay_applies_every_edit(crate::catalog::mutated_all(m, r.ops), k.0, rs, i + 1, base, through, r.edit_id);
            if i + 1 == rs.len() {
                assert(rs.last() == r);
            } else {
                assert(rs[rs.len() - 1].edit_id == base + 1 + (rs.len() - 1));
                assert(rs.last().edit_id > through);
            }
        }
    } else {
        assert(s.len() == 0);
        reveal_with_fuel(crate::catalog::mutated_all, 2);
    }
}

/// A gap in the numbers of the edits is damage.
pub proof fn lemma_gap_is_corruption(m: ManifestView, c: Catalog, rs: Seq<RecordView>, i: int, base: u64, through: u64, applied: u64)
    requires
        0 <= i < rs.len(),
        rs[i].edit_id != base + 1 + i,
    ensures
        replay_from(m, c, rs, i, base, through, applied) is Corrupt,
{
}

/// What a snapshot and its log recover to: the snapshot with every edit behind
/// it, numbered on from the last one, its numbers past every table.
pub proof fn lemma_recovery_is_snapshot_and_log(m: ManifestView, h: EditLogHeader, rs: Seq<RecordView>)
    requires
        m.caps & CAP_MANIFEST_EDITS != 0,
        h.base_applied_through <= m.applied_through,
        m.applied_through < u64::MAX,
        forall|i: int| 0 <= i < rs.len() ==> record_fits(#[trigger] rs[i]),
        forall|i: int| 0 <= i < rs.len() ==> (#[trigger] rs[i]).edit_id == h.base_applied_through + 1 + i,
        rs.len() > 0 ==> m.applied_through < rs.last().edit_id < u64::MAX,
        crate::catalog::check_ops(crate::catalog::catalog_of(m), steps_after(rs, m.applied_through)).1 is None,
    ensures
        ({
            let last = if rs.len() > 0 { rs.last().edit_id } else { m.applied_through };
            let n = crate::catalog::mutated_all(m, steps_after(rs, m.applied_through));
            recovered(m, Some(header_wire(h) + log_wire(rs))) == Replayed::Catalog(
                reconciled_view(ManifestView { applied_through: last, next_edit_id: (last + 1) as u64, ..n }),
                last,
            )
        }),
{
    let head = header_wire(h);
    let data = head + log_wire(rs);
    lemma_header_len(h);
    lemma_header_round_trip(h, log_wire(rs));
    assert(data + Seq::empty() =~= data);
    assert(check_frame(data + Seq::empty(), data.len() as int) is Torn);
    lemma_log_round_trip(head, rs, Seq::empty());
    assert(rs.skip(0) =~= rs);
    lemma_replay_applies_every_edit(
        m,
        crate::catalog::catalog_of(m),
        rs,
        0,
        h.base_applied_through,
        m.applied_through,
        m.applied_through,
    );
}

/// A snapshot without a log recovers to itself.
pub proof fn lemma_recovery_without_a_log(m: ManifestView)
    ensures
        recovered(m, None) == Replayed::Catalog(reconciled_view(m), m.applied_through),
{
}

/// Reconciling raises the numbers no further than the tables ask for, and
/// changes nothing else.
pub proof fn lemma_reconciling_raises_the_numbers_alone(m: ManifestView)
    ensures
        ({
            let r = reconciled_view(m);
            &&& r.cfs == m.cfs
            &&& r.wal_layout == m.wal_layout
            &&& r.instance_nonce == m.instance_nonce
            &&& r.caps == m.caps
            &&& r.generation == m.generation
            &&& r.applied_through == m.applied_through
            &&& r.next_edit_id == m.next_edit_id
            &&& r.next_file_id >= m.next_file_id
            &&& r.global_seq >= m.global_seq
            &&& r.next_file_id == m.next_file_id || r.next_file_id == u64::MAX || r.next_file_id == 1 || exists|i: int, k: int|
                0 <= i < m.cfs.len() && 0 <= k < m.cfs[i].sstables.len() && (#[trigger] m.cfs[i].sstables[k]).id + 1 == r.next_file_id
            &&& r.global_seq == m.global_seq || exists|i: int, k: int|
                0 <= i < m.cfs.len() && 0 <= k < m.cfs[i].sstables.len() && (#[trigger] m.cfs[i].sstables[k]).max_seq == r.global_seq
        }),
{
    lemma_maxima_are_met(m.cfs);
}

proof fn lemma_table_maxima_are_met(ss: Seq<SstMetaView>, from: (u64, u64))
    ensures
        table_maxima(ss, from).0 == from.0 || exists|k: int| 0 <= k < ss.len() && (#[trigger] ss[k]).id == table_maxima(ss, from).0,
        table_maxima(ss, from).1 == from.1 || exists|k: int| 0 <= k < ss.len() && (#[trigger] ss[k]).max_seq == table_maxima(ss, from).1,
    decreases ss.len(),
{
    if ss.len() > 0 {
        let d = ss.drop_last();
        lemma_table_maxima_are_met(d, from);
        let r = table_maxima(d, from);
        assert(ss[ss.len() - 1] == ss.last());
        if r.0 != from.0 {
            let k = choose|k: int| 0 <= k < d.len() && (#[trigger] d[k]).id == r.0;
            assert(ss[k] == d[k]);
        }
        if r.1 != from.1 {
            let k = choose|k: int| 0 <= k < d.len() && (#[trigger] d[k]).max_seq == r.1;
            assert(ss[k] == d[k]);
        }
    }
}

proof fn lemma_maxima_are_met(cfs: Seq<CfView>)
    ensures
        cf_maxima(cfs).0 == 0 || exists|i: int, k: int|
            0 <= i < cfs.len() && 0 <= k < cfs[i].sstables.len() && (#[trigger] cfs[i].sstables[k]).id == cf_maxima(cfs).0,
        cf_maxima(cfs).1 == 0 || exists|i: int, k: int|
            0 <= i < cfs.len() && 0 <= k < cfs[i].sstables.len() && (#[trigger] cfs[i].sstables[k]).max_seq == cf_maxima(cfs).1,
    decreases cfs.len(),
{
    if cfs.len() > 0 {
        let d = cfs.drop_last();
        let n = cfs.len() - 1;
        lemma_maxima_are_met(d);
        let f = cf_maxima(d);
        let x = cf_maxima(cfs);
        lemma_table_maxima_are_met(cfs.last().sstables, f);
        assert(cfs[n] == cfs.last());
        if x.0 != f.0 {
            let k = choose|k: int| 0 <= k < cfs.last().sstables.len() && (#[trigger] cfs.last().sstables[k]).id == x.0;
            assert(cfs[n].sstables[k].id == x.0);
        } else if f.0 != 0 {
            let (i, k) = choose|i: int, k: int| 0 <= i < d.len() && 0 <= k < d[i].sstables.len() && (#[trigger] d[i].sstables[k]).id == f.0;
            assert(cfs[i].sstables[k] == d[i].sstables[k]);
        }
        if x.1 != f.1 {
            let k = choose|k: int| 0 <= k < cfs.last().sstables.len() && (#[trigger] cfs.last().sstables[k]).max_seq == x.1;
            assert(cfs[n].sstables[k].max_seq == x.1);
        } else if f.1 != 0 {
            let (i, k) = choose|i: int, k: int| 0 <= i < d.len() && 0 <= k < d[i].sstables.len() && (#[trigger] d[i].sstables[k]).max_seq == f.1;
            assert(cfs[i].sstables[k] == d[i].sstables[k]);
        }
    }
}

/// A name joined to a directory lies in it, behind one slash.
pub proof fn lemma_joined_path_lies_in_the_directory(dir: Seq<char>, name: Seq<char>)
    ensures
        dir.len() == 0 ==> joined_path(dir, name) == name,
        dir.len() > 0 && dir.last() == '/' ==> joined_path(dir, name) == dir + name,
        dir.len() > 0 && dir.last() != '/' ==> joined_path(dir, name) == dir + "/"@ + name,
        dir.is_prefix_of(joined_path(dir, name)),
        joined_path(dir, name).skip(joined_path(dir, name).len() - name.len()) == name,
{
    let p = joined_path(dir, name);
    assert(dir =~= p.subrange(0, dir.len() as int));
    assert(p.skip(p.len() - name.len()) =~= name);
}

/// A log of the old format is told by its first four bytes, however short it
/// is; any other that is shorter than a header is too short.
pub proof fn lemma_old_logs_are_told_by_their_magic(data: Seq<u8>)
    ensures
        data.len() >= 4 && crate::encoding::le_value(data.take(4)) == LEGACY_EDIT_LOG_MAGIC <==> check_header(data) is Legacy,
        data.len() < 32 && !(check_header(data) is Legacy) ==> check_header(data) is Short,
        check_header(data) is Short ==> data.len() < 32,
{
}

} // verus!
