//! Numbers that are part of the on-disk formats: capability bits, entry flags,
//! record kinds, magics.

use vstd::prelude::*;
use vstd::string::StringExecFns;

use crate::error::OndaError;

verus! {

/// The manifest snapshot is followed by a log of version edits.
pub const CAP_MANIFEST_EDITS: u64 = 0x01;
/// Tables may hold entries in the extended layout.
pub const CAP_EXTENDED_RECORDS: u64 = 0x02;
/// Tables may hold prefix-delta blocks.
pub const CAP_PREFIX_DELTA: u64 = 0x04;
/// Tables may hold merge operands.
pub const CAP_MERGE_OPERANDS: u64 = 0x08;
/// Tables may hold range deletes.
pub const CAP_RANGE_DELETES: u64 = 0x10;
/// Tables may carry the time of their last compaction.
pub const CAP_PERIODIC_AGE: u64 = 0x20;
/// Every capability this library implements.
pub const CAPS_KNOWN: u64 = 0x3F;

/// Whether every capability in `bits` is implemented here.
pub open spec fn caps_known(bits: u64) -> bool {
    bits & !CAPS_KNOWN == 0
}

/// Refuse a capability set that holds an unknown bit.
pub fn check_caps(bits: u64) -> (r: Result<(), OndaError>)
    ensures
        r is Ok <==> caps_known(bits),
        r is Err ==> r->Err_0 is UnsupportedFormat,
{
    if bits & !CAPS_KNOWN != 0 {
        return Err(OndaError::UnsupportedFormat(
            crate::text::with_number("capability set ", bits, " holds an unknown bit"),
        ));
    }
    Ok(())
}

/// First bytes of an edit log.
pub const EDIT_LOG_MAGIC: [u8; 8] = [0x59, 0x4F, 0x4C, 0x4F, 0x44, 0x42, 0x45, 0x44];

/// The directory of a column family below a tier's root.
pub open spec fn cf_dir_text(name: Seq<char>) -> Seq<char> {
    "cf-"@ + name
}

/// The directory of a column family below a tier's root.
pub fn cf_dir_name(name: &str) -> (r: String)
    ensures
        r@ == cf_dir_text(name@),
{
    let mut s = String::from_str("cf-");
    s.append(name);
    s
}

// ---------------------------------------------------------------------------
// Record kinds and entry flags
// ---------------------------------------------------------------------------

/// A value.
pub const KIND_PUT: u64 = 1;
/// A deletion of every older version.
pub const KIND_DELETE: u64 = 2;
/// A deletion of one older put.
pub const KIND_SINGLE_DELETE: u64 = 3;
/// An operand for the merge operator.
pub const KIND_MERGE: u64 = 4;
/// A deletion of a range of keys.
pub const KIND_RANGE_DELETE: u64 = 5;
/// The largest number that a kind can ever have.
pub const MAX_ASSIGNABLE_KIND: u64 = 63;

/// Bits that may stand beside a kind: expiry, and a value in the value log.
pub const MODIFIERS_KNOWN: u64 = 0x06;

/// Why bytes were refused: they are damaged, or they use something that is not
/// implemented here.
pub enum Fault {
    Corrupt,
    Unsupported,
}

/// Whether an error reports this fault.
pub open spec fn reports(e: OndaError, f: Fault) -> bool {
    match f {
        Fault::Corrupt => e is Corruption,
        Fault::Unsupported => e is UnsupportedFormat,
    }
}

/// Why a kind is refused, if it is: no kind can have the number, or none that
/// is implemented here does.
pub open spec fn kind_fault(kind: u64) -> Option<Fault> {
    if kind == 0 || kind > MAX_ASSIGNABLE_KIND {
        Some(Fault::Corrupt)
    } else if kind > KIND_RANGE_DELETE {
        Some(Fault::Unsupported)
    } else {
        None
    }
}

/// Refuse an unknown kind.
pub fn check_kind(kind: u64) -> (r: Result<(), OndaError>)
    ensures
        match kind_fault(kind) {
            None => r is Ok,
            Some(f) => r is Err && reports(r->Err_0, f),
        },
{
    if kind == 0 || kind > MAX_ASSIGNABLE_KIND {
        return Err(OndaError::Corruption(crate::text::with_number("record kind ", kind, " cannot be assigned")));
    }
    if kind > KIND_RANGE_DELETE {
        return Err(OndaError::UnsupportedFormat(crate::text::with_number("record kind ", kind, " is not implemented")));
    }
    Ok(())
}

/// Why a kind is refused in a stream of points, if it is: a range deletion
/// has no place there.
pub open spec fn point_kind_fault(kind: u64) -> Option<Fault> {
    if kind == KIND_RANGE_DELETE { Some(Fault::Corrupt) } else { kind_fault(kind) }
}

/// Refuse a kind that has no place in a stream of points.
pub fn check_point_kind(kind: u64) -> (r: Result<(), OndaError>)
    ensures
        match point_kind_fault(kind) {
            None => r is Ok,
            Some(f) => r is Err && reports(r->Err_0, f),
        },
{
    if kind == KIND_RANGE_DELETE {
        return Err(OndaError::Corruption(crate::text::with_number("record kind ", kind, " in a stream of points")));
    }
    check_kind(kind)
}

/// Refuse an unknown modifier.
pub fn check_modifiers(mods: u64) -> (r: Result<(), OndaError>)
    ensures
        r is Ok <==> mods & !MODIFIERS_KNOWN == 0,
        r is Err ==> r->Err_0 is UnsupportedFormat,
{
    if mods & !MODIFIERS_KNOWN != 0 {
        return Err(OndaError::UnsupportedFormat(crate::text::with_number("entry modifiers ", mods, " hold an unknown bit")));
    }
    Ok(())
}

/// Whether a flags byte can come from a writer: known bits, no value in the
/// value log for a deletion, and a single delete is a deletion.
pub open spec fn flags_ok(fl: u8) -> bool {
    &&& fl & !crate::flags::KNOWN == 0
    &&& !(fl & crate::flags::TOMBSTONE != 0 && fl & crate::flags::HAS_VLOG != 0)
    &&& !(fl & crate::flags::SINGLE_DELETE != 0 && fl & crate::flags::TOMBSTONE == 0)
}

/// Refuse a flags byte that no writer writes.
pub fn check_entry_flags(fl: u8) -> (r: Result<(), OndaError>)
    ensures
        r is Ok <==> flags_ok(fl),
        r is Err ==> r->Err_0 is Corruption,
{
    if fl & !crate::flags::KNOWN != 0 || (fl & crate::flags::TOMBSTONE != 0 && fl & crate::flags::HAS_VLOG != 0) || (fl
        & crate::flags::SINGLE_DELETE != 0 && fl & crate::flags::TOMBSTONE == 0) {
        return Err(OndaError::Corruption(crate::text::with_number("entry flags ", fl as u64, " come from no writer")));
    }
    Ok(())
}

/// The flags byte of an entry on disk. A deletion has no value in the value
/// log.
pub open spec fn entry_flags(tombstone: bool, single_delete: bool, has_ttl: bool, has_vlog: bool) -> u8 {
    let t: u8 = if tombstone { crate::flags::TOMBSTONE } else { 0 };
    let e: u8 = if has_ttl { crate::flags::HAS_TTL } else { 0 };
    let v: u8 = if has_vlog && !tombstone { crate::flags::HAS_VLOG } else { 0 };
    let s: u8 = if single_delete { crate::flags::SINGLE_DELETE } else { 0 };
    t | e | v | s
}

/// The flags byte of an entry on disk.
pub fn normalized_entry_flags(tombstone: bool, single_delete: bool, has_ttl: bool, has_vlog: bool) -> (r: u8)
    ensures
        r == entry_flags(tombstone, single_delete, has_ttl, has_vlog),
{
    let t: u8 = if tombstone { crate::flags::TOMBSTONE } else { 0 };
    let e: u8 = if has_ttl { crate::flags::HAS_TTL } else { 0 };
    let v: u8 = if has_vlog && !tombstone { crate::flags::HAS_VLOG } else { 0 };
    let s: u8 = if single_delete { crate::flags::SINGLE_DELETE } else { 0 };
    t | e | v | s
}

/// What a flags byte says, it says of the entry that it was made for.
pub proof fn lemma_entry_flags(tombstone: bool, single_delete: bool, has_ttl: bool, has_vlog: bool)
    requires
        single_delete ==> tombstone,
    ensures
        ({
            let fl = entry_flags(tombstone, single_delete, has_ttl, has_vlog);
            &&& flags_ok(fl)
            &&& fl & crate::flags::TOMBSTONE != 0 <==> tombstone
            &&& fl & crate::flags::SINGLE_DELETE != 0 <==> single_delete
            &&& fl & crate::flags::HAS_TTL != 0 <==> has_ttl
            &&& fl & crate::flags::HAS_VLOG != 0 <==> has_vlog && !tombstone
        }),
{
    let t: u8 = if tombstone { 0x01 } else { 0 };
    let e: u8 = if has_ttl { 0x02 } else { 0 };
    let v: u8 = if has_vlog && !tombstone { 0x04 } else { 0 };
    let s: u8 = if single_delete { 0x10 } else { 0 };
    let fl = t | e | v | s;
    assert((fl & 0x01u8 != 0 <==> t == 1) && (fl & 0x02u8 != 0 <==> e == 2) && (fl & 0x04u8 != 0 <==> v == 4) && (fl & 0x10u8 != 0 <==> s == 0x10)
        && fl & !0x17u8 == 0) by (bit_vector)
        requires
            fl == t | e | v | s,
            t == 0x01u8 || t == 0u8,
            e == 0x02u8 || e == 0u8,
            v == 0x04u8 || v == 0u8,
            s == 0x10u8 || s == 0u8,
    ;
}

/// The point kind that flags stand for.
pub open spec fn point_kind_of(tombstone: bool, single_delete: bool) -> u64 {
    if single_delete {
        KIND_SINGLE_DELETE
    } else if tombstone {
        KIND_DELETE
    } else {
        KIND_PUT
    }
}

/// The point kind that flags stand for.
pub fn point_kind(tombstone: bool, single_delete: bool) -> (r: u64)
    ensures
        r == point_kind_of(tombstone, single_delete),
{
    if single_delete {
        KIND_SINGLE_DELETE
    } else if tombstone {
        KIND_DELETE
    } else {
        KIND_PUT
    }
}

/// Whether flags alone can stand for a kind.
pub open spec fn flags_suffice(kind: u64) -> bool {
    KIND_PUT <= kind <= KIND_SINGLE_DELETE
}

/// Whether flags alone can stand for a kind.
pub fn is_point_kind(kind: u64) -> (r: bool)
    ensures
        r == flags_suffice(kind),
{
    kind >= KIND_PUT && kind <= KIND_SINGLE_DELETE
}

pub open spec fn kind_is_tombstone(kind: u64) -> bool {
    kind == KIND_DELETE || kind == KIND_SINGLE_DELETE
}

/// Whether a kind deletes, and whether it deletes one put only.
pub fn kind_to_point_flags(kind: u64) -> (r: (bool, bool))
    ensures
        r.0 == kind_is_tombstone(kind),
        r.1 == (kind == KIND_SINGLE_DELETE),
{
    (kind == KIND_DELETE || kind == KIND_SINGLE_DELETE, kind == KIND_SINGLE_DELETE)
}

// ---------------------------------------------------------------------------
// What kinds and flags mean
// ---------------------------------------------------------------------------

/// A kind made of two flags tells the flags: whether it deletes, and whether it
/// deletes one put only.
pub proof fn lemma_point_kind_tells_its_flags(tombstone: bool, single_delete: bool)
    requires
        single_delete ==> tombstone,
    ensures
        kind_is_tombstone(point_kind_of(tombstone, single_delete)) == tombstone,
        (point_kind_of(tombstone, single_delete) == KIND_SINGLE_DELETE) == single_delete,
        flags_suffice(point_kind_of(tombstone, single_delete)),
        point_kind_fault(point_kind_of(tombstone, single_delete)) is None,
{
}

/// Five kinds are known. Up to a bound others may be assigned one day, and are
/// not supported; beyond it, and for none, there is damage. A range delete is
/// no entry of a point.
pub proof fn lemma_which_kinds_are_known(kind: u64)
    ensures
        kind_fault(kind) is None <==> kind == KIND_PUT || kind == KIND_DELETE || kind == KIND_SINGLE_DELETE || kind == KIND_MERGE || kind
            == KIND_RANGE_DELETE,
        kind_fault(kind) == Some(Fault::Corrupt) <==> kind == 0 || kind > 63,
        kind != KIND_RANGE_DELETE ==> point_kind_fault(kind) == kind_fault(kind),
        point_kind_fault(KIND_RANGE_DELETE) == Some(Fault::Corrupt),
        flags_suffice(kind) <==> kind == KIND_PUT || kind == KIND_DELETE || kind == KIND_SINGLE_DELETE,
        kind_is_tombstone(kind) <==> kind == KIND_DELETE || kind == KIND_SINGLE_DELETE,
{
}

/// Flags are in order where each is a known one, nothing that deletes is in the
/// value log, and nothing deletes one put without deleting.
pub proof fn lemma_which_flags_are_in_order(fl: u8)
    ensures
        flags_ok(fl) <==> {
            &&& fl & 0xE8u8 == 0
            &&& fl & crate::flags::TOMBSTONE != 0 ==> fl & crate::flags::HAS_VLOG == 0
            &&& fl & crate::flags::SINGLE_DELETE != 0 ==> fl & crate::flags::TOMBSTONE != 0
        },
{
    assert(fl & !0x17u8 == fl & 0xE8u8) by (bit_vector);
}

/// Capabilities are known where each is one of the six, and a set of known ones
/// stays known when others join it.
pub proof fn lemma_which_capabilities_are_known(a: u64, b: u64)
    ensures
        caps_known(a) <==> a < 64,
        caps_known(a) && caps_known(b) <==> caps_known(a | b),
        caps_known(CAP_MANIFEST_EDITS) && caps_known(CAP_EXTENDED_RECORDS) && caps_known(CAP_PREFIX_DELTA) && caps_known(CAP_MERGE_OPERANDS)
            && caps_known(CAP_RANGE_DELETES) && caps_known(CAP_PERIODIC_AGE),
{
    assert((a & !0x3Fu64 == 0 <==> a < 64) && (a & !0x3Fu64 == 0 && b & !0x3Fu64 == 0 <==> (a | b) & !0x3Fu64 == 0)) by (bit_vector);
    assert(1u64 & !0x3Fu64 == 0 && 2u64 & !0x3Fu64 == 0 && 4u64 & !0x3Fu64 == 0 && 8u64 & !0x3Fu64 == 0 && 16u64 & !0x3Fu64 == 0 && 32u64
        & !0x3Fu64 == 0) by (bit_vector);
}

} // verus!
