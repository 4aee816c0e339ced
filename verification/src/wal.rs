//! One write as the log carries it.

use vstd::prelude::*;

verus! {

/// One write.
#[derive(Debug)]
pub struct Record {
    pub key: Vec<u8>,
    pub value: Vec<u8>,
    pub seq: u64,
    /// Absolute expiry in nanoseconds; 0 for none.
    pub ttl: i64,
    pub tombstone: bool,
    pub single_delete: bool,
}

/// One write, borrowed.
#[derive(Debug, Clone, Copy)]
pub struct RecordRef<'a> {
    pub key: &'a [u8],
    pub value: &'a [u8],
    pub seq: u64,
    /// Absolute expiry in nanoseconds; 0 for none.
    pub ttl: i64,
    pub tombstone: bool,
    pub single_delete: bool,
}

} // verus!
