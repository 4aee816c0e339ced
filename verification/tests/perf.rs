//! Counters of read scopes.

use ondadb::perf::{enter, PerfContext, PerfStack};



#[test]
fn bump_outside_a_scope_is_a_noop() {
    let mut stack = PerfStack::new();
    assert_eq!(stack.depth(), 0);
    stack.bump(&PerfContext {
        block_misses: 1,
        ..PerfContext::default()
    });
    assert_eq!(stack.depth(), 0, "a bump must not create a frame");
    let scope = enter(&mut stack);
    assert_eq!(scope.finish(&mut stack), PerfContext::default());
}

#[test]
fn finish_returns_only_this_scopes_counters() {
    let mut stack = PerfStack::new();
    let scope = enter(&mut stack);
    stack.bump(&PerfContext {
        memtable_probes: 1,
        ..PerfContext::default()
    });
    stack.bump(&PerfContext {
        block_misses: 2,
        block_read_bytes: 4096,
        ..PerfContext::default()
    });
    let ctx = scope.finish(&mut stack);
    assert_eq!(ctx.memtable_probes, 1);
    assert_eq!(ctx.block_misses, 2);
    assert_eq!(ctx.block_read_bytes, 4096);
    assert_eq!(ctx.bloom_probes, 0);
    assert_eq!(stack.depth(), 0, "finish must pop the frame");
}

#[test]
fn nested_scopes_do_not_leak() {
    let mut stack = PerfStack::new();
    let outer = enter(&mut stack);
    stack.bump(&PerfContext {
        sstable_probes: 1,
        ..PerfContext::default()
    });
    let inner = enter(&mut stack);
    stack.bump(&PerfContext {
        sstable_probes: 10,
        ..PerfContext::default()
    });
    let inner_ctx = inner.finish(&mut stack);
    stack.bump(&PerfContext {
        sstable_probes: 100,
        ..PerfContext::default()
    });
    let outer_ctx = outer.finish(&mut stack);
    assert_eq!(inner_ctx.sstable_probes, 10, "inner counts only its own");
    assert_eq!(
        outer_ctx.sstable_probes, 101,
        "the inner scope must not roll up into the outer one"
    );
}

