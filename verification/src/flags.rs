//! Bits of an entry's flags byte.

use vstd::prelude::*;

verus! {

/// The entry deletes its key.
pub const TOMBSTONE: u8 = 0x01;
/// The entry carries an expiry.
pub const HAS_TTL: u8 = 0x02;
/// The entry's value stands in the value log.
pub const HAS_VLOG: u8 = 0x04;
/// The entry deletes one put of its key.
pub const SINGLE_DELETE: u8 = 0x10;
/// Every bit that has a meaning.
pub const KNOWN: u8 = 0x17;

} // verus!
