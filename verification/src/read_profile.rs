//! Counters of all reads of a database, kept while profiling is on.

use vstd::prelude::*;

use crate::perf::PerfContext;

verus! {

/// What the reads of a database did since profiling was last turned on.
#[derive(Debug, Clone, Copy, PartialEq, Eq, Structural)]
pub struct ReadStats {
    /// Reads of single keys.
    pub point_reads: u64,
    /// Batches of reads.
    pub multi_get_calls: u64,
    /// Keys in those batches.
    pub multi_get_keys: u64,
    /// Steps of iterators.
    pub iterator_ops: u64,
    /// What all of these did.
    pub perf: PerfContext,
}

/// Nothing read.
pub open spec fn no_reads() -> ReadStats {
    ReadStats { point_reads: 0, multi_get_calls: 0, multi_get_keys: 0, iterator_ops: 0, perf: crate::perf::no_counts() }
}

impl Default for ReadStats {
    fn default() -> (r: ReadStats)
        ensures
            r == no_reads(),
    {
        ReadStats { point_reads: 0, multi_get_calls: 0, multi_get_keys: 0, iterator_ops: 0, perf: PerfContext::default() }
    }
}

/// An operation that is counted.
#[derive(Debug, Clone, Copy)]
pub enum ReadOp {
    Point,
    /// A batch of so many keys.
    MultiGet(usize),
    IteratorStep,
}

/// The counters with one operation more.
pub open spec fn counted(s: ReadStats, op: ReadOp) -> ReadStats {
    match op {
        ReadOp::Point => ReadStats { point_reads: s.point_reads.wrapping_add(1), ..s },
        ReadOp::MultiGet(n) => ReadStats {
            multi_get_calls: s.multi_get_calls.wrapping_add(1),
            multi_get_keys: s.multi_get_keys.wrapping_add(n as u64),
            ..s
        },
        ReadOp::IteratorStep => ReadStats { iterator_ops: s.iterator_ops.wrapping_add(1), ..s },
    }
}

/// The counters of a database.
#[derive(Debug)]
pub struct ReadProfiler {
    enabled: bool,
    stats: ReadStats,
}

impl Default for ReadProfiler {
    fn default() -> (r: ReadProfiler)
        ensures
            !r.on(),
            r@ == no_reads(),
    {
        ReadProfiler { enabled: false, stats: ReadStats::default() }
    }
}

impl ReadProfiler {
    pub closed spec fn view(&self) -> ReadStats {
        self.stats
    }

    /// Whether profiling is on.
    pub closed spec fn on(&self) -> bool {
        self.enabled
    }

    /// Whether profiling is on.
    pub fn enabled(&self) -> (r: bool)
        ensures
            r == self.on(),
    {
        self.enabled
    }

    /// Count an operation, where profiling is on; whether it is.
    pub fn begin(&mut self, op: ReadOp) -> (r: bool)
        ensures
            r == old(self).on(),
            final(self).on() == old(self).on(),
            final(self)@ == (if r { counted(old(self)@, op) } else { old(self)@ }),
    {
        if !self.enabled {
            return false;
        }
        self.begin_always(op);
        true
    }

    /// Count an operation that is profiled whether or not profiling is on now.
    pub fn begin_always(&mut self, op: ReadOp)
        ensures
            final(self).on() == old(self).on(),
            final(self)@ == counted(old(self)@, op),
    {
        match op {
            ReadOp::Point => {
                self.stats.point_reads = self.stats.point_reads.wrapping_add(1);
            },
            ReadOp::MultiGet(n) => {
                self.stats.multi_get_keys = self.stats.multi_get_keys.wrapping_add(n as u64);
                self.stats.multi_get_calls = self.stats.multi_get_calls.wrapping_add(1);
            },
            ReadOp::IteratorStep => {
                self.stats.iterator_ops = self.stats.iterator_ops.wrapping_add(1);
            },
        }
    }

    /// Turn profiling on or off. Turning it on starts over at 0; turning it off
    /// keeps what was counted.
    pub fn set_enabled(&mut self, on: bool)
        ensures
            final(self).on() == on,
            final(self)@ == (if on { no_reads() } else { old(self)@ }),
    {
        if on {
            self.stats = ReadStats::default();
        }
        self.enabled = on;
    }

    /// What was counted.
    pub fn stats(&self) -> (r: ReadStats)
        ensures
            r == self@,
    {
        self.stats
    }

    /// Add what a profiled operation did.
    pub fn add(&mut self, ctx: &PerfContext)
        ensures
            final(self).on() == old(self).on(),
            final(self)@ == (ReadStats { perf: crate::perf::wrapped_sum(old(self)@.perf, *ctx), ..old(self)@ }),
    {
        let mut p = self.stats.perf;
        p.absorb_wrapping(ctx);
        self.stats.perf = p;
    }
}

/// A read counts once, under its own name: a point read as one, a batch as one
/// call and so many keys, a step of an iterator as one. Nothing else changes.
pub proof fn lemma_read_counts_once(s: ReadStats, n: usize)
    requires
        s.point_reads < u64::MAX,
        s.multi_get_calls < u64::MAX,
        s.multi_get_keys + n <= u64::MAX,
        s.iterator_ops < u64::MAX,
    ensures
        ({
            let p = counted(s, ReadOp::Point);
            &&& p.point_reads == s.point_reads + 1 && p.multi_get_calls == s.multi_get_calls
            &&& p.multi_get_keys == s.multi_get_keys && p.iterator_ops == s.iterator_ops && p.perf == s.perf
        }),
        ({
            let m = counted(s, ReadOp::MultiGet(n));
            &&& m.point_reads == s.point_reads && m.multi_get_calls == s.multi_get_calls + 1
            &&& m.multi_get_keys == s.multi_get_keys + n && m.iterator_ops == s.iterator_ops && m.perf == s.perf
        }),
        ({
            let i = counted(s, ReadOp::IteratorStep);
            &&& i.point_reads == s.point_reads && i.multi_get_calls == s.multi_get_calls
            &&& i.multi_get_keys == s.multi_get_keys && i.iterator_ops == s.iterator_ops + 1 && i.perf == s.perf
        }),
{
}

/// A count that starts anew starts from zero.
pub proof fn lemma_no_reads_are_zero()
    ensures
        no_reads().point_reads == 0,
        no_reads().multi_get_calls == 0,
        no_reads().multi_get_keys == 0,
        no_reads().iterator_ops == 0,
        crate::perf::adds_up(no_reads().perf, no_reads().perf, no_reads().perf),
{
}

} // verus!
