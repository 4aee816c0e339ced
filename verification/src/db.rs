//! What the operations on a whole database decide by.

use vstd::prelude::*;

use crate::comparator::Comparator;
use crate::error::OndaError;
use crate::manifest::SstMeta;
use crate::prefix_rule::PrefixRule;
use crate::read_profile::{ReadProfiler, ReadStats};
use crate::snapshot::SnapshotPins;
use crate::storage::TierRegistry;
use crate::text::str_eq;

verus! {

/// A storage tier, as it was configured.
#[derive(Debug)]
pub struct TierDef {
    pub name: String,
    /// Whether other databases use it, too: what stands there is never deleted.
    pub shared: bool,
}

/// The state of a database that its operations decide by.
#[derive(Debug)]
pub struct DB {
    /// Which database this is. No two that are open have the same.
    pub id: u64,
    pub read_only: bool,
    /// Whether a durability failure has made it unusable.
    pub poisoned: bool,
    pub tiers: Vec<TierDef>,
    pub roots: TierRegistry,
    /// What the objects of this database on shared tiers are named by.
    pub instance_nonce: Option<u64>,
    pub next_file_id: u64,
    pub visible_seq: u64,
    pub caps: u64,
    pub unified_memtable: bool,
    pub snapshots: SnapshotPins,
    pub profile: ReadProfiler,
}

/// A partition of the keys that start with a prefix.
#[derive(Debug)]
pub struct PartitionRule {
    pub prefix: Vec<u8>,
    pub name: String,
}

impl PrefixRule for PartitionRule {
    open spec fn prefix_bytes(&self) -> Seq<u8> {
        self.prefix@
    }

    fn prefix(&self) -> (r: &[u8]) {
        self.prefix.as_slice()
    }
}

/// A tier for the keys that start with a prefix, once they are old enough.
#[derive(Debug)]
pub struct TierRule {
    pub prefix: Vec<u8>,
    pub tier: String,
    /// In nanoseconds, as many as a duration may have.
    pub min_age: u128,
}

impl PrefixRule for TierRule {
    open spec fn prefix_bytes(&self) -> Seq<u8> {
        self.prefix@
    }

    fn prefix(&self) -> (r: &[u8]) {
        self.prefix.as_slice()
    }
}

/// The state of a column family that the operations on parts decide by.
#[derive(Debug)]
pub struct ColumnFamily<C: Comparator> {
    pub name: String,
    pub ord: C,
    /// The number of the bottom level.
    pub bottom_level: u32,
    /// The tables of the bottom level.
    pub bottom: Vec<SstMeta>,
    pub partition_rules: Vec<PartitionRule>,
    pub tier_rules: Vec<TierRule>,
}

/// Whether a tier of this name was configured as shared.
pub open spec fn is_shared_tier(tiers: Seq<TierDef>, name: Seq<char>) -> bool {
    exists|i: int| 0 <= i < tiers.len() && (#[trigger] tiers[i]).name@ == name && tiers[i].shared
}

impl DB {
    /// Whether a tier of this name was configured as shared.
    pub fn tier_is_shared(&self, name: &str) -> (r: bool)
        ensures
            r == is_shared_tier(self.tiers@, name@),
    {
        let mut i: usize = 0;
        while i < self.tiers.len()
            invariant
                i <= self.tiers@.len(),
                forall|k: int| 0 <= k < i ==> !((#[trigger] self.tiers@[k]).name@ == name@ && self.tiers@[k].shared),
            decreases self.tiers@.len() - i,
        {
            if self.tiers[i].shared && str_eq(self.tiers[i].name.as_str(), name) {
                return true;
            }
            i += 1;
        }
        false
    }

    /// Refuse the use of a database that a failure has made unusable.
    pub fn check_usable(&self) -> (r: Result<(), OndaError>)
        ensures
            r is Ok <==> !self.poisoned,
            r is Err ==> r->Err_0 is Poisoned,
    {
        if self.poisoned {
            return Err(OndaError::Poisoned(crate::text::join3("database is unusable ", "after a durability failure", "")));
        }
        Ok(())
    }

    /// Refuse to change a database that is read-only or unusable.
    pub fn check_writable(&self) -> (r: Result<(), OndaError>)
        ensures
            r is Ok <==> !self.read_only && !self.poisoned,
            self.read_only ==> r is Err && r->Err_0 is ReadOnly,
            !self.read_only && self.poisoned ==> r is Err && r->Err_0 is Poisoned,
    {
        if self.read_only {
            return Err(OndaError::ReadOnly(crate::text::join3("database", " is read-only", "")));
        }
        self.check_usable()
    }

    /// Turn the profiling of reads on or off. Turning it on starts over at 0.
    pub fn enable_read_profiling(&mut self, on: bool)
        ensures
            final(self).profile.on() == on,
            final(self).profile@ == (if on { crate::read_profile::no_reads() } else { old(self).profile@ }),
            *final(self) == (DB { profile: final(self).profile, ..*old(self) }),
    {
        self.profile.set_enabled(on);
    }

    /// Whether reads are profiled.
    pub fn read_profiling_enabled(&self) -> (r: bool)
        ensures
            r == self.profile.on(),
    {
        self.profile.enabled()
    }

    /// What reads did since profiling was last turned on.
    pub fn read_stats(&self) -> (r: ReadStats)
        ensures
            r == self.profile@,
    {
        self.profile.stats()
    }
}

} // verus!
