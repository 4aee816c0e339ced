//! Counters for one operation.
//!
//! Scopes of measurement nest: what is counted goes to the innermost open one
//! alone, and a closed scope leaves nothing behind in the one around it.

use vstd::prelude::*;

verus! {

/// What an operation did.
#[derive(Debug, Clone, Copy, PartialEq, Eq, Structural)]
pub struct PerfContext {
    /// Bloom filters consulted, one for each table considered.
    pub bloom_probes: u64,
    /// Tables that a filter ruled out.
    pub bloom_negatives: u64,
    /// Memtable lookups.
    pub memtable_probes: u64,
    /// Tables searched.
    pub sstable_probes: u64,
    /// Searches of the index of a table.
    pub index_seeks: u64,
    /// Data blocks that the block cache held.
    pub block_cache_hits: u64,
    /// Data blocks that had to be fetched.
    pub block_misses: u64,
    /// Bytes read for data blocks.
    pub block_read_bytes: u64,
    /// Bytes that came of decompressing data blocks.
    pub bytes_decompressed: u64,
    /// Values read from a value log.
    pub vlog_reads: u64,
    /// Bytes of those values.
    pub vlog_read_bytes: u64,
    /// Separated values that the block cache held.
    pub vlog_cache_hits: u64,
    /// Seeks of iterators.
    pub iterator_seeks: u64,
    /// Keys that an iterator came to.
    pub iterator_steps: u64,
    /// Block fetches that a batch of reads spared.
    pub multiget_blocks_deduped: u64,
    /// Sources of range deletes consulted.
    pub range_sources: u64,
    /// Keys found deleted by a range delete.
    pub range_masked: u64,
    /// Blocks that a batch of reads fetched in parallel.
    pub multiget_parallel_reads: u64,
    /// Parallel fetches that waited for a permit.
    pub multiget_io_waits: u64,
}

/// Nothing counted.
pub open spec fn no_counts() -> PerfContext {
    PerfContext {
        bloom_probes: 0,
        bloom_negatives: 0,
        memtable_probes: 0,
        sstable_probes: 0,
        index_seeks: 0,
        block_cache_hits: 0,
        block_misses: 0,
        block_read_bytes: 0,
        bytes_decompressed: 0,
        vlog_reads: 0,
        vlog_read_bytes: 0,
        vlog_cache_hits: 0,
        iterator_seeks: 0,
        iterator_steps: 0,
        multiget_blocks_deduped: 0,
        range_sources: 0,
        range_masked: 0,
        multiget_parallel_reads: 0,
        multiget_io_waits: 0,
    }
}

impl Default for PerfContext {
    fn default() -> (r: PerfContext)
        ensures
            r == no_counts(),
    {
        PerfContext {
            bloom_probes: 0,
            bloom_negatives: 0,
            memtable_probes: 0,
            sstable_probes: 0,
            index_seeks: 0,
            block_cache_hits: 0,
            block_misses: 0,
            block_read_bytes: 0,
            bytes_decompressed: 0,
            vlog_reads: 0,
            vlog_read_bytes: 0,
            vlog_cache_hits: 0,
            iterator_seeks: 0,
            iterator_steps: 0,
            multiget_blocks_deduped: 0,
            range_sources: 0,
            range_masked: 0,
            multiget_parallel_reads: 0,
            multiget_io_waits: 0,
        }
    }
}

/// Whether no counter overflows where `b` is added to `a`.
pub open spec fn sum_fits(a: PerfContext, b: PerfContext) -> bool {
    &&& a.bloom_probes + b.bloom_probes <= u64::MAX
    &&& a.bloom_negatives + b.bloom_negatives <= u64::MAX
    &&& a.memtable_probes + b.memtable_probes <= u64::MAX
    &&& a.sstable_probes + b.sstable_probes <= u64::MAX
    &&& a.index_seeks + b.index_seeks <= u64::MAX
    &&& a.block_cache_hits + b.block_cache_hits <= u64::MAX
    &&& a.block_misses + b.block_misses <= u64::MAX
    &&& a.block_read_bytes + b.block_read_bytes <= u64::MAX
    &&& a.bytes_decompressed + b.bytes_decompressed <= u64::MAX
    &&& a.vlog_reads + b.vlog_reads <= u64::MAX
    &&& a.vlog_read_bytes + b.vlog_read_bytes <= u64::MAX
    &&& a.vlog_cache_hits + b.vlog_cache_hits <= u64::MAX
    &&& a.iterator_seeks + b.iterator_seeks <= u64::MAX
    &&& a.iterator_steps + b.iterator_steps <= u64::MAX
    &&& a.multiget_blocks_deduped + b.multiget_blocks_deduped <= u64::MAX
    &&& a.range_sources + b.range_sources <= u64::MAX
    &&& a.range_masked + b.range_masked <= u64::MAX
    &&& a.multiget_parallel_reads + b.multiget_parallel_reads <= u64::MAX
    &&& a.multiget_io_waits + b.multiget_io_waits <= u64::MAX
}

/// Every counter of `a` and `b` together.
pub open spec fn sum_of(a: PerfContext, b: PerfContext) -> PerfContext {
    PerfContext {
        bloom_probes: (a.bloom_probes + b.bloom_probes) as u64,
        bloom_negatives: (a.bloom_negatives + b.bloom_negatives) as u64,
        memtable_probes: (a.memtable_probes + b.memtable_probes) as u64,
        sstable_probes: (a.sstable_probes + b.sstable_probes) as u64,
        index_seeks: (a.index_seeks + b.index_seeks) as u64,
        block_cache_hits: (a.block_cache_hits + b.block_cache_hits) as u64,
        block_misses: (a.block_misses + b.block_misses) as u64,
        block_read_bytes: (a.block_read_bytes + b.block_read_bytes) as u64,
        bytes_decompressed: (a.bytes_decompressed + b.bytes_decompressed) as u64,
        vlog_reads: (a.vlog_reads + b.vlog_reads) as u64,
        vlog_read_bytes: (a.vlog_read_bytes + b.vlog_read_bytes) as u64,
        vlog_cache_hits: (a.vlog_cache_hits + b.vlog_cache_hits) as u64,
        iterator_seeks: (a.iterator_seeks + b.iterator_seeks) as u64,
        iterator_steps: (a.iterator_steps + b.iterator_steps) as u64,
        multiget_blocks_deduped: (a.multiget_blocks_deduped + b.multiget_blocks_deduped) as u64,
        range_sources: (a.range_sources + b.range_sources) as u64,
        range_masked: (a.range_masked + b.range_masked) as u64,
        multiget_parallel_reads: (a.multiget_parallel_reads + b.multiget_parallel_reads) as u64,
        multiget_io_waits: (a.multiget_io_waits + b.multiget_io_waits) as u64,
    }
}

/// Every counter of `a` and `b` together, each starting over at 0 where it
/// overflows.
pub open spec fn wrapped_sum(a: PerfContext, b: PerfContext) -> PerfContext {
    PerfContext {
        bloom_probes: a.bloom_probes.wrapping_add(b.bloom_probes),
        bloom_negatives: a.bloom_negatives.wrapping_add(b.bloom_negatives),
        memtable_probes: a.memtable_probes.wrapping_add(b.memtable_probes),
        sstable_probes: a.sstable_probes.wrapping_add(b.sstable_probes),
        index_seeks: a.index_seeks.wrapping_add(b.index_seeks),
        block_cache_hits: a.block_cache_hits.wrapping_add(b.block_cache_hits),
        block_misses: a.block_misses.wrapping_add(b.block_misses),
        block_read_bytes: a.block_read_bytes.wrapping_add(b.block_read_bytes),
        bytes_decompressed: a.bytes_decompressed.wrapping_add(b.bytes_decompressed),
        vlog_reads: a.vlog_reads.wrapping_add(b.vlog_reads),
        vlog_read_bytes: a.vlog_read_bytes.wrapping_add(b.vlog_read_bytes),
        vlog_cache_hits: a.vlog_cache_hits.wrapping_add(b.vlog_cache_hits),
        iterator_seeks: a.iterator_seeks.wrapping_add(b.iterator_seeks),
        iterator_steps: a.iterator_steps.wrapping_add(b.iterator_steps),
        multiget_blocks_deduped: a.multiget_blocks_deduped.wrapping_add(b.multiget_blocks_deduped),
        range_sources: a.range_sources.wrapping_add(b.range_sources),
        range_masked: a.range_masked.wrapping_add(b.range_masked),
        multiget_parallel_reads: a.multiget_parallel_reads.wrapping_add(b.multiget_parallel_reads),
        multiget_io_waits: a.multiget_io_waits.wrapping_add(b.multiget_io_waits),
    }
}

impl PerfContext {
    /// Add every counter of `o`.
    pub fn absorb(&mut self, o: &PerfContext)
        requires
            sum_fits(*old(self), *o),
        ensures
            *final(self) == sum_of(*old(self), *o),
    {
        self.bloom_probes += o.bloom_probes;
        self.bloom_negatives += o.bloom_negatives;
        self.memtable_probes += o.memtable_probes;
        self.sstable_probes += o.sstable_probes;
        self.index_seeks += o.index_seeks;
        self.block_cache_hits += o.block_cache_hits;
        self.block_misses += o.block_misses;
        self.block_read_bytes += o.block_read_bytes;
        self.bytes_decompressed += o.bytes_decompressed;
        self.vlog_reads += o.vlog_reads;
        self.vlog_read_bytes += o.vlog_read_bytes;
        self.vlog_cache_hits += o.vlog_cache_hits;
        self.iterator_seeks += o.iterator_seeks;
        self.iterator_steps += o.iterator_steps;
        self.multiget_blocks_deduped += o.multiget_blocks_deduped;
        self.range_sources += o.range_sources;
        self.range_masked += o.range_masked;
        self.multiget_parallel_reads += o.multiget_parallel_reads;
        self.multiget_io_waits += o.multiget_io_waits;
    }

    /// Add every counter of `o`, starting over at 0 where one overflows.
    pub fn absorb_wrapping(&mut self, o: &PerfContext)
        ensures
            *final(self) == wrapped_sum(*old(self), *o),
    {
        self.bloom_probes = self.bloom_probes.wrapping_add(o.bloom_probes);
        self.bloom_negatives = self.bloom_negatives.wrapping_add(o.bloom_negatives);
        self.memtable_probes = self.memtable_probes.wrapping_add(o.memtable_probes);
        self.sstable_probes = self.sstable_probes.wrapping_add(o.sstable_probes);
        self.index_seeks = self.index_seeks.wrapping_add(o.index_seeks);
        self.block_cache_hits = self.block_cache_hits.wrapping_add(o.block_cache_hits);
        self.block_misses = self.block_misses.wrapping_add(o.block_misses);
        self.block_read_bytes = self.block_read_bytes.wrapping_add(o.block_read_bytes);
        self.bytes_decompressed = self.bytes_decompressed.wrapping_add(o.bytes_decompressed);
        self.vlog_reads = self.vlog_reads.wrapping_add(o.vlog_reads);
        self.vlog_read_bytes = self.vlog_read_bytes.wrapping_add(o.vlog_read_bytes);
        self.vlog_cache_hits = self.vlog_cache_hits.wrapping_add(o.vlog_cache_hits);
        self.iterator_seeks = self.iterator_seeks.wrapping_add(o.iterator_seeks);
        self.iterator_steps = self.iterator_steps.wrapping_add(o.iterator_steps);
        self.multiget_blocks_deduped = self.multiget_blocks_deduped.wrapping_add(o.multiget_blocks_deduped);
        self.range_sources = self.range_sources.wrapping_add(o.range_sources);
        self.range_masked = self.range_masked.wrapping_add(o.range_masked);
        self.multiget_parallel_reads = self.multiget_parallel_reads.wrapping_add(o.multiget_parallel_reads);
        self.multiget_io_waits = self.multiget_io_waits.wrapping_add(o.multiget_io_waits);
    }
}

/// The open scopes of one thread, the innermost last.
#[derive(Debug)]
pub struct PerfStack {
    frames: Vec<PerfContext>,
}

/// An open scope of measurement.
#[derive(Debug)]
pub struct Scope {}

/// What becomes of the scopes when something is counted.
pub open spec fn bumped(s: Seq<PerfContext>, delta: PerfContext) -> Seq<PerfContext> {
    if s.len() == 0 { s } else { s.update(s.len() - 1, sum_of(s.last(), delta)) }
}

impl PerfStack {
    pub closed spec fn view(&self) -> Seq<PerfContext> {
        self.frames@
    }

    /// No scope is open.
    pub fn new() -> (r: PerfStack)
        ensures
            r@.len() == 0,
    {
        PerfStack { frames: Vec::new() }
    }

    /// How many scopes are open.
    pub fn depth(&self) -> (r: usize)
        ensures
            r == self@.len(),
    {
        self.frames.len()
    }

    /// Whether a scope is open.
    pub fn active(&self) -> (r: bool)
        ensures
            r == (self@.len() > 0),
    {
        self.frames.len() > 0
    }

    /// Count into the innermost scope; nothing where none is open.
    pub fn bump(&mut self, delta: &PerfContext)
        requires
            old(self)@.len() > 0 ==> sum_fits(old(self)@.last(), *delta),
        ensures
            final(self)@ == bumped(old(self)@, *delta),
    {
        let n = self.frames.len();
        if n == 0 {
            return;
        }
        let mut top = self.frames[n - 1];
        top.absorb(delta);
        self.frames.set(n - 1, top);
    }

    fn pop(&mut self) -> (r: PerfContext)
        ensures
            r == (if old(self)@.len() > 0 { old(self)@.last() } else { no_counts() }),
            final(self)@ == (if old(self)@.len() > 0 { old(self)@.drop_last() } else { old(self)@ }),
    {
        match self.frames.pop() {
            None => PerfContext::default(),
            Some(top) => top,
        }
    }
}

/// Open a scope; it starts with nothing counted.
pub fn enter(stack: &mut PerfStack) -> (r: Scope)
    ensures
        final(stack)@ == old(stack)@.push(no_counts()),
{
    stack.frames.push(PerfContext::default());
    Scope {  }
}

impl Scope {
    /// Close the innermost scope; what it counted.
    pub fn finish(self, stack: &mut PerfStack) -> (r: PerfContext)
        ensures
            r == (if old(stack)@.len() > 0 { old(stack)@.last() } else { no_counts() }),
            final(stack)@ == (if old(stack)@.len() > 0 { old(stack)@.drop_last() } else { old(stack)@ }),
    {
        stack.pop()
    }

    /// Close the innermost scope and count what it counted in the one around
    /// it, too.
    pub fn finish_into_parent(self, stack: &mut PerfStack) -> (r: PerfContext)
        requires
            old(stack)@.len() > 1 ==> sum_fits(old(stack)@[old(stack)@.len() - 2], old(stack)@.last()),
        ensures
            r == (if old(stack)@.len() > 0 { old(stack)@.last() } else { no_counts() }),
            final(stack)@ == (if old(stack)@.len() > 0 { bumped(old(stack)@.drop_last(), r) } else { old(stack)@ }),
    {
        let n = stack.frames.len();
        let top = stack.pop();
        if n > 0 {
            stack.bump(&top);
        }
        top
    }
}

/// A scope that was opened and closed leaves the scopes around it as they were,
/// whatever was counted in between, and counts that alone.
pub proof fn lemma_scopes_do_not_leak(outer: Seq<PerfContext>, delta: PerfContext)
    ensures
        bumped(outer.push(no_counts()), delta).drop_last() == outer,
        bumped(outer.push(no_counts()), delta).last() == delta,
{
    let s = outer.push(no_counts());
    assert(bumped(s, delta).drop_last() =~= outer);
    assert(sum_of(no_counts(), delta) == delta);
}

/// Whether each counter of `s` is the sum of those of `a` and `b`.
pub open spec fn adds_up(a: PerfContext, b: PerfContext, s: PerfContext) -> bool {
    &&& s.bloom_probes == a.bloom_probes + b.bloom_probes
    &&& s.bloom_negatives == a.bloom_negatives + b.bloom_negatives
    &&& s.memtable_probes == a.memtable_probes + b.memtable_probes
    &&& s.sstable_probes == a.sstable_probes + b.sstable_probes
    &&& s.index_seeks == a.index_seeks + b.index_seeks
    &&& s.block_cache_hits == a.block_cache_hits + b.block_cache_hits
    &&& s.block_misses == a.block_misses + b.block_misses
    &&& s.block_read_bytes == a.block_read_bytes + b.block_read_bytes
    &&& s.bytes_decompressed == a.bytes_decompressed + b.bytes_decompressed
    &&& s.vlog_reads == a.vlog_reads + b.vlog_reads
    &&& s.vlog_read_bytes == a.vlog_read_bytes + b.vlog_read_bytes
    &&& s.vlog_cache_hits == a.vlog_cache_hits + b.vlog_cache_hits
    &&& s.iterator_seeks == a.iterator_seeks + b.iterator_seeks
    &&& s.iterator_steps == a.iterator_steps + b.iterator_steps
    &&& s.multiget_blocks_deduped == a.multiget_blocks_deduped + b.multiget_blocks_deduped
    &&& s.range_sources == a.range_sources + b.range_sources
    &&& s.range_masked == a.range_masked + b.range_masked
    &&& s.multiget_parallel_reads == a.multiget_parallel_reads + b.multiget_parallel_reads
    &&& s.multiget_io_waits == a.multiget_io_waits + b.multiget_io_waits
}

/// Counts are added counter by counter, whichever way they are added; where
/// nothing was counted nothing is added.
pub proof fn lemma_counts_add_up(a: PerfContext, b: PerfContext)
    ensures
        sum_fits(a, b) ==> adds_up(a, b, sum_of(a, b)),
        sum_fits(a, b) ==> adds_up(a, b, wrapped_sum(a, b)),
        wrapped_sum(a, b) == wrapped_sum(b, a),
        wrapped_sum(a, no_counts()) == a,
        sum_of(a, no_counts()) == a,
{
}

/// A bump goes to the innermost scope and leaves those around it alone.
pub proof fn lemma_bump_is_of_the_innermost(s: Seq<PerfContext>, delta: PerfContext, i: int)
    requires
        s.len() > 0,
        sum_fits(s.last(), delta),
        0 <= i < s.len(),
    ensures
        bumped(s, delta).len() == s.len(),
        i < s.len() - 1 ==> bumped(s, delta)[i] == s[i],
        adds_up(s.last(), delta, bumped(s, delta).last()),
{
}

/// Counts that started from nothing count what was counted, and no more.
pub proof fn lemma_no_counts_are_zero(b: PerfContext)
    ensures
        adds_up(no_counts(), b, b),
{
}

} // verus!
