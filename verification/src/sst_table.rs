//! A table as a whole: rows in blocks, and separators that lead to the right
//! block.

use vstd::prelude::*;

use crate::comparator::Comparator;
use crate::sst_block::{Codec, PointHit};
use crate::sst_build::Row;

verus! {

/// Whether row `a` of block `i` stands before row `b` of block `j`.
pub open spec fn earlier(blocks: Seq<Seq<Row>>, i: int, a: int, j: int, b: int) -> bool {
    &&& 0 <= i < blocks.len() && 0 <= a < blocks[i].len()
    &&& 0 <= j < blocks.len() && 0 <= b < blocks[j].len()
    &&& i < j || (i == j && a < b)
}

/// Whether the rows of a table ascend, over all its blocks, none of them empty.
pub open spec fn table_ascends<C: Comparator>(ord: C, blocks: Seq<Seq<Row>>) -> bool {
    &&& forall|i: int| 0 <= i < blocks.len() ==> (#[trigger] blocks[i]).len() > 0
    &&& forall|i: int, a: int, j: int, b: int| #[trigger]
        earlier(blocks, i, a, j, b) ==> crate::place::place_lt(ord, blocks[i][a].place(), blocks[j][b].place())
}

/// The separator of block `i`: between its last row and the first of the next;
/// of the last block, its last row.
pub open spec fn separator_at(bytewise: bool, blocks: Seq<Seq<Row>>, i: int) -> crate::place::Place {
    let last = blocks[i].last();
    if i == blocks.len() - 1 {
        last.place()
    } else {
        crate::sst_index::settled(bytewise, last.key, last.seq, blocks[i + 1][0].key)
    }
}

/// Whether an index leads to these blocks.
pub open spec fn index_leads(bytewise: bool, blocks: Seq<Seq<Row>>, index: Seq<crate::sst_index::IndexView>) -> bool {
    &&& index.len() == blocks.len()
    &&& forall|i: int| 0 <= i < index.len() ==> (#[trigger] index[i]).place() == separator_at(bytewise, blocks, i)
}

/// Whether a table holds a row, somewhere.
pub open spec fn holds(blocks: Seq<Seq<Row>>, r: Row) -> bool {
    exists|i: int, a: int| row_is(blocks, i, a, r)
}

pub open spec fn row_is(blocks: Seq<Seq<Row>>, i: int, a: int, r: Row) -> bool {
    0 <= i < blocks.len() && 0 <= a < blocks[i].len() && blocks[i][a] == r
}

/// Whether `r` is the newest version of `key` that `seq` can see.
pub open spec fn newest_visible<C: Comparator>(ord: C, blocks: Seq<Seq<Row>>, key: Seq<u8>, seq: u64, r: Option<Row>) -> bool {
    match r {
        Some(x) => {
            &&& holds(blocks, x) && crate::comparator::same_key(ord, x.key, key) && x.seq <= seq
            &&& forall|y: Row| #[trigger] holds(blocks, y) && crate::comparator::same_key(ord, y.key, key) && y.seq <= seq ==> y.seq <= x.seq
        },
        None => forall|y: Row| #[trigger] holds(blocks, y) && crate::comparator::same_key(ord, y.key, key) ==> y.seq > seq,
    }
}

/// A separator comes neither before the last row of its block nor after the
/// first of the next, and is that last row or stands between the two keys.
pub proof fn lemma_separator_at<C: Comparator>(ord: C, bytewise: bool, blocks: Seq<Seq<Row>>, i: int)
    requires
        bytewise ==> forall|a: Seq<u8>, b: Seq<u8>| #[trigger] ord.le(a, b) == crate::comparator::bytes_le(a, b),
        table_ascends(ord, blocks),
        0 <= i < blocks.len(),
    ensures
        ({
            let s = separator_at(bytewise, blocks, i);
            &&& !crate::place::place_lt(ord, s, blocks[i].last().place())
            &&& s == blocks[i].last().place() || (i + 1 < blocks.len() && crate::comparator::key_lt(ord, s.0, blocks[i + 1][0].key))
            &&& i + 1 < blocks.len() ==> crate::place::place_lt(ord, s, blocks[i + 1][0].place())
        }),
{
    let last = blocks[i].last();
    crate::place::lemma_place_order(ord, true);
    assert(!crate::place::leads(ord, true, last.place(), last.place()));
    if i + 1 < blocks.len() {
        let next = blocks[i + 1][0];
        assert(earlier(blocks, i, blocks[i].len() - 1, i + 1, 0));
        if next.key == last.key {
            crate::sst_entry::lemma_common_len(last.key, last.key);
            lemma_common_self(last.key);
        } else {
            crate::sst_index::lemma_settled_brackets(ord, bytewise, last.key, last.seq, next.key, next.seq);
            crate::comparator::lemma_order(ord);
            if bytewise {
                if ord.le(next.key, last.key) {
                    assert(ord.le(last.key, next.key) == crate::comparator::bytes_le(last.key, next.key));
                    crate::comparator::lemma_bytes_antisymmetric(last.key, next.key);
                }
                assert(!crate::comparator::bytes_le(next.key, last.key)) by {
                    assert(!ord.le(next.key, last.key));
                }
                crate::sst_index::lemma_separator_brackets(last.key, next.key);
                let s = crate::sst_index::separator_of(last.key, next.key);
                assert(ord.le(next.key, s) == crate::comparator::bytes_le(next.key, s));
            }
        }
    }
}

proof fn lemma_common_self(a: Seq<u8>)
    ensures
        crate::sst_entry::common_len(a, a) == a.len(),
    decreases a.len(),
{
    if a.len() > 0 {
        lemma_common_self(a.skip(1));
    }
}

/// The separators of a table ascend.
pub proof fn lemma_index_ascends<C: Comparator>(ord: C, bytewise: bool, blocks: Seq<Seq<Row>>, index: Seq<crate::sst_index::IndexView>)
    requires
        bytewise ==> forall|a: Seq<u8>, b: Seq<u8>| #[trigger] ord.le(a, b) == crate::comparator::bytes_le(a, b),
        table_ascends(ord, blocks),
        index_leads(bytewise, blocks, index),
    ensures
        crate::sst_index::index_sorted(ord, index),
{
    crate::place::lemma_place_order(ord, true);
    assert forall|i: int, j: int| 0 <= i < j < index.len() implies crate::place::place_lt(
        ord,
        (#[trigger] index[i]).place(),
        (#[trigger] index[j]).place(),
    ) by {
        lemma_separator_at(ord, bytewise, blocks, i);
        lemma_separator_at(ord, bytewise, blocks, j);
        let s = index[i].place();
        let first = blocks[i + 1][0].place();
        let last = blocks[j].last().place();
        let t = index[j].place();
        assert(crate::place::leads(ord, true, s, first));
        let b = blocks[j].len() - 1;
        if i + 1 == j && b == 0 {
            assert(first == last);
        } else {
            assert(earlier(blocks, i + 1, 0, j, b));
            assert(crate::place::leads(ord, true, first, last));
            assert(crate::place::leads(ord, true, s, last));
        }
        assert(crate::place::leads(ord, true, s, last));
        crate::place::lemma_place_bounds(ord, last, t, s);
        assert(crate::place::leads(ord, true, s, t));
    }
}

/// The largest key that an index tells is the key of the last row.
pub proof fn lemma_max_key_is_exact(bytewise: bool, blocks: Seq<Seq<Row>>, index: Seq<crate::sst_index::IndexView>, min: Seq<u8>)
    requires
        index_leads(bytewise, blocks, index),
        blocks.len() > 0,
    ensures
        crate::sst_index::max_key_of(min, index) == blocks.last().last().key,
{
    assert(index[index.len() - 1].place() == separator_at(bytewise, blocks, index.len() - 1));
}

/// Row `i` of a block, where it is one of this key.
pub open spec fn block_row<C: Comparator>(ord: C, rows: Seq<Row>, key: Seq<u8>, i: int) -> Option<Row> {
    if i < rows.len() && crate::comparator::same_key(ord, rows[i].key, key) { Some(rows[i]) } else { None }
}

/// Whether `i` is the first row of a block that is not before a target.
pub open spec fn first_row<C: Comparator>(ord: C, rows: Seq<Row>, target: crate::place::Place, i: int) -> bool {
    &&& 0 <= i <= rows.len()
    &&& forall|k: int| 0 <= k < i ==> crate::place::place_lt(ord, (#[trigger] rows[k]).place(), target)
    &&& i < rows.len() ==> !crate::place::place_lt(ord, rows[i].place(), target)
}

/// The first block whose separator is not before `(key, seq)` decides: what it
/// holds of the key at that point is the newest version in the whole table
/// that `seq` can see. Where no block is left, there is none.
pub proof fn lemma_block_decides<C: Comparator>(
    ord: C,
    bytewise: bool,
    blocks: Seq<Seq<Row>>,
    index: Seq<crate::sst_index::IndexView>,
    key: Seq<u8>,
    seq: u64,
    n: int,
    i: int,
)
    requires
        bytewise ==> forall|a: Seq<u8>, b: Seq<u8>| #[trigger] ord.le(a, b) == crate::comparator::bytes_le(a, b),
        table_ascends(ord, blocks),
        index_leads(bytewise, blocks, index),
        crate::sst_index::cuts(ord, index, (key, seq), n),
        n < blocks.len() ==> first_row(ord, blocks[n], (key, seq), i),
    ensures
        newest_visible(ord, blocks, key, seq, if n < blocks.len() { block_row(ord, blocks[n], key, i) } else { None }),
{
    let t = (key, seq);
    let r = if n < blocks.len() { block_row(ord, blocks[n], key, i) } else { None };
    crate::place::lemma_place_order(ord, true);
    crate::comparator::lemma_order(ord);
    assert forall|y: Row| #[trigger] holds(blocks, y) && crate::comparator::same_key(ord, y.key, key) && y.seq <= seq implies r is Some && y.seq <= r->0.seq by {
        let (k, a) = choose|k: int, a: int| row_is(blocks, k, a, y);
        assert(ord.le(key, key));
        assert(!crate::place::place_lt(ord, y.place(), t));
        if k < n {
            lemma_separator_at(ord, bytewise, blocks, k);
            let s = index[k].place();
            let last = blocks[k].last().place();
            assert(crate::place::leads(ord, true, s, t));
            if a < blocks[k].len() - 1 {
                assert(earlier(blocks, k, a, k, blocks[k].len() - 1));
                assert(crate::place::leads(ord, true, y.place(), last));
            }
            crate::place::lemma_place_bounds(ord, last, s, t);
            assert(crate::place::leads(ord, true, last, t));
            assert(crate::place::leads(ord, true, y.place(), t));
        } else if k == n {
            if a > i {
                lemma_between(ord, t, blocks[n][i], y);
                assert(earlier(blocks, n, i, n, a));
            } else if a < i {
                assert(crate::place::place_lt(ord, blocks[n][a].place(), t));
            }
        } else {
            lemma_separator_at(ord, bytewise, blocks, n);
            let s = index[n].place();
            assert(!crate::place::place_lt(ord, s, t));
            let first = blocks[n + 1][0];
            if s == blocks[n].last().place() {
                let e = blocks[n].len() - 1;
                assert(i < blocks[n].len()) by {
                    if i == blocks[n].len() {
                        assert(crate::place::place_lt(ord, blocks[n][e].place(), t));
                    }
                }
                assert(earlier(blocks, n, i, k, a));
                lemma_between(ord, t, blocks[n][i], y);
            } else {
                if k > n + 1 || a > 0 {
                    assert(earlier(blocks, n + 1, 0, k, a));
                    assert(ord.le(first.key, y.key) || ord.le(y.key, first.key));
                }
                assert(ord.le(first.key, key));
                assert(crate::comparator::key_lt(ord, s.0, key)) by {
                    if ord.le(key, s.0) {
                        assert(ord.le(first.key, s.0));
                    }
                }
            }
        }
    }
    if let Some(x) = r {
        assert(row_is(blocks, n, i, x));
    }
}

/// Whether row `a` of block `n` is the first of the table that is not before a
/// target; block `n` is one past the last where there is none.
pub open spec fn first_in_table<C: Comparator>(ord: C, blocks: Seq<Seq<Row>>, target: crate::place::Place, n: int, a: int) -> bool {
    &&& n < blocks.len() ==> 0 <= a < blocks[n].len() && !crate::place::place_lt(ord, blocks[n][a].place(), target)
    &&& forall|k: int, b: int| #[trigger]
        stands_before(blocks, k, b, n, a) ==> crate::place::place_lt(ord, blocks[k][b].place(), target)
}

/// Whether row `b` of block `k` stands before row `a` of block `n`.
pub open spec fn stands_before(blocks: Seq<Seq<Row>>, k: int, b: int, n: int, a: int) -> bool {
    0 <= k < blocks.len() && 0 <= b < blocks[k].len() && (k < n || (k == n && b < a))
}

/// Seeking finds the first row of the whole table that is not before its
/// target: in the block that the index leads to, or else the first of the next.
pub proof fn lemma_seek_is_first<C: Comparator>(
    ord: C,
    bytewise: bool,
    blocks: Seq<Seq<Row>>,
    index: Seq<crate::sst_index::IndexView>,
    target: crate::place::Place,
    n: int,
    i: int,
)
    requires
        bytewise ==> forall|a: Seq<u8>, b: Seq<u8>| #[trigger] ord.le(a, b) == crate::comparator::bytes_le(a, b),
        table_ascends(ord, blocks),
        index_leads(bytewise, blocks, index),
        crate::sst_index::cuts(ord, index, target, n),
        n < blocks.len() ==> first_row(ord, blocks[n], target, i),
    ensures
        n == blocks.len() ==> first_in_table(ord, blocks, target, n, 0),
        n < blocks.len() && i < blocks[n].len() ==> first_in_table(ord, blocks, target, n, i),
        n < blocks.len() && i == blocks[n].len() ==> first_in_table(ord, blocks, target, n + 1, 0),
{
    crate::place::lemma_place_order(ord, true);
    assert forall|k: int, b: int| 0 <= k < n && k < blocks.len() && 0 <= b < blocks[k].len() implies crate::place::place_lt(
        ord,
        (#[trigger] blocks[k][b]).place(),
        target,
    ) by {
        lemma_separator_at(ord, bytewise, blocks, k);
        let s = index[k].place();
        let e = blocks[k].len() - 1;
        let last = blocks[k].last().place();
        let y = blocks[k][b].place();
        assert(crate::place::leads(ord, true, s, target));
        if b < e {
            assert(earlier(blocks, k, b, k, e));
            assert(crate::place::leads(ord, true, y, last));
        }
        crate::place::lemma_place_bounds(ord, last, s, target);
        assert(crate::place::leads(ord, true, last, target));
        assert(crate::place::leads(ord, true, y, target));
    }
    if n < blocks.len() && i == blocks[n].len() && n + 1 < blocks.len() {
        lemma_separator_at(ord, bytewise, blocks, n);
        let s = index[n].place();
        let first = blocks[n + 1][0].place();
        assert(!crate::place::place_lt(ord, s, target));
        assert(crate::place::leads(ord, true, s, first));
        if crate::place::leads(ord, true, first, target) {
            assert(crate::place::leads(ord, true, s, target));
        }
    }
}

/// A row between a target and a row of the same key is of that key too.
proof fn lemma_between<C: Comparator>(ord: C, t: crate::place::Place, x: Row, y: Row)
    requires
        !crate::place::place_lt(ord, x.place(), t),
        crate::comparator::same_key(ord, y.key, t.0),
        y.seq <= t.1,
    ensures
        crate::place::place_lt(ord, x.place(), y.place()) ==> crate::comparator::same_key(ord, x.key, t.0) && x.seq >= y.seq,
{
    crate::comparator::lemma_order(ord);
    if crate::place::place_lt(ord, x.place(), y.place()) {
        assert(ord.le(x.key, y.key) || ord.le(y.key, x.key));
        assert(ord.le(t.0, x.key) || ord.le(x.key, t.0));
        assert(ord.le(x.key, y.key));
        assert(ord.le(x.key, t.0));
    }
}

/// The bytes of the data block that holds these rows.
pub open spec fn block_of(c: Codec, interval: int, rows: Seq<Row>) -> Seq<u8> {
    crate::sst_build::block_wire(crate::sst_build::rows_wire(c, interval, rows), crate::sst_build::anchors_of(c, interval, rows))
}

/// Whether a block of these rows can be written.
pub open spec fn block_fits(c: Codec, interval: int, rows: Seq<Row>) -> bool {
    &&& crate::sst_build::rows_ok(c, rows)
    &&& crate::sst_build::rows_wire(c, interval, rows).len() <= u32::MAX
    &&& crate::sst_build::anchors_of(c, interval, rows).len() <= u32::MAX
}

/// What a point read tells of a row.
pub open spec fn tells_row(h: PointHit, r: Option<Row>, now: i64) -> bool {
    match r {
        None => !h.found && !h.deleted && h.value is None && h.seq == 0,
        Some(x) => {
            let gone = crate::format::kind_is_tombstone(x.kind) || (x.ttl != 0 && x.ttl <= now);
            &&& h.found && h.deleted == gone && h.seq == x.seq && h.kind == x.kind
            &&& gone ==> h.value is None
            &&& !gone ==> (h.value matches Some(v) && (match x.logged {
                None => v@ == crate::sst_block::StoredValueView::Inline(x.value),
                Some(off) => v@ == crate::sst_block::StoredValueView::Logged(off, ((x.value.len() as u64) as usize) as u64),
            }))
        },
    }
}

/// What a table gives back is what was put into it: a point read of the block
/// that the index leads to tells of the newest version of the key, in the
/// whole table, that `seq` can see.
pub proof fn lemma_table_gives_back<C: Comparator>(
    ord: C,
    c: Codec,
    interval: int,
    blocks: Seq<Seq<Row>>,
    index: Seq<crate::sst_index::IndexView>,
    key: Seq<u8>,
    seq: u64,
    now: i64,
    n: int,
    h: PointHit,
)
    requires
        c.bytewise ==> forall|a: Seq<u8>, b: Seq<u8>| #[trigger] ord.le(a, b) == crate::comparator::bytes_le(a, b),
        interval > 0,
        table_ascends(ord, blocks),
        index_leads(c.bytewise, blocks, index),
        crate::sst_index::cuts(ord, index, (key, seq), n),
        n < blocks.len(),
        block_fits(c, interval, blocks[n]),
        crate::sst_block::split_parts(block_of(c, interval, blocks[n]), c.delta) matches Some((raw, restarts)) && (crate::sst_block::block_ok(
            ord,
            c,
            raw,
            restarts,
        ) ==> crate::sst_block::tells(h, crate::sst_block::find_point(ord, c, raw, 0, Seq::empty(), (key, seq))->Ok_0, now)),
    ensures
        exists|r: Option<Row>| #[trigger] newest_visible(ord, blocks, key, seq, r) && tells_row(h, r, now),
{
    let rows = blocks[n];
    let t = (key, seq);
    let raw = crate::sst_build::rows_wire(c, interval, rows);
    assert(crate::sst_build::rows_ascend(ord, rows)) by {
        assert forall|i: int, j: int| 0 <= i < j < rows.len() implies crate::place::place_lt(
            ord,
            (#[trigger] rows[i]).place(),
            (#[trigger] rows[j]).place(),
        ) by {
            assert(earlier(blocks, n, i, n, j));
        }
    }
    crate::sst_build::lemma_block_splits(c, interval, rows);
    crate::sst_build::lemma_block_is_ok(ord, c, interval, rows);
    crate::sst_build::lemma_rows_round_trip(c, interval, rows);
    let es = crate::sst_build::rows_placed(c, interval, rows);
    let i = crate::sst_block::lemma_some_first(ord, es, t);
    crate::sst_block::lemma_find_is_first(ord, c, raw, 0, Seq::empty(), t, i);
    assert(first_row(ord, rows, t, i)) by {
        assert forall|k: int| 0 <= k < i implies crate::place::place_lt(ord, (#[trigger] rows[k]).place(), t) by {
            assert(es[k].place() == rows[k].place());
        }
        if i < rows.len() {
            assert(es[i].place() == rows[i].place());
        }
    }
    lemma_block_decides(ord, c.bytewise, blocks, index, key, seq, n, i);
    let r = block_row(ord, rows, key, i);
    if r is Some {
        let x = rows[i];
        assert(crate::sst_build::row_ok(c, x));
        crate::format::lemma_entry_flags(
            crate::format::kind_is_tombstone(x.kind),
            x.kind == crate::format::KIND_SINGLE_DELETE,
            x.ttl != 0,
            x.logged is Some,
        );
    }
    assert(tells_row(h, r, now));
    assert(newest_visible(ord, blocks, key, seq, r) && tells_row(h, r, now));
}

/// A point read at the key and sequence of any row of a block tells of that
/// row: that it was found, its sequence and kind, that it is gone if and only
/// if its kind is a deletion or its time has come, and otherwise its value, or
/// where the value log keeps it and how long it is.
pub proof fn lemma_row_is_read_back<C: Comparator>(ord: C, c: Codec, interval: int, rows: Seq<Row>, a: int, now: i64, h: PointHit)
    requires
        interval > 0,
        crate::sst_build::rows_ascend(ord, rows),
        block_fits(c, interval, rows),
        0 <= a < rows.len(),
        crate::sst_block::split_parts(block_of(c, interval, rows), c.delta) matches Some((raw, restarts)) && (crate::sst_block::block_ok(
            ord,
            c,
            raw,
            restarts,
        ) ==> crate::sst_block::tells(h, crate::sst_block::find_point(ord, c, raw, 0, Seq::empty(), (rows[a].key, rows[a].seq))->Ok_0, now)),
    ensures
        h.found,
        h.seq == rows[a].seq,
        h.kind == rows[a].kind,
        h.deleted <==> rows[a].kind == crate::format::KIND_DELETE || rows[a].kind == crate::format::KIND_SINGLE_DELETE || (rows[a].ttl != 0
            && rows[a].ttl <= now),
        h.value is None <==> h.deleted,
        !h.deleted && rows[a].logged is None ==> (h.value matches Some(crate::sst_block::StoredValue::Inline(v)) && v@ == rows[a].value),
        !h.deleted && rows[a].logged is Some ==> (h.value matches Some(crate::sst_block::StoredValue::Logged(off, len)) && off
            == rows[a].logged->0 && (rows[a].value.len() <= usize::MAX ==> len == rows[a].value.len())),
{
    let x = rows[a];
    let t = (x.key, x.seq);
    let raw = crate::sst_build::rows_wire(c, interval, rows);
    crate::sst_build::lemma_block_splits(c, interval, rows);
    crate::sst_build::lemma_block_is_ok(ord, c, interval, rows);
    crate::sst_build::lemma_rows_round_trip(c, interval, rows);
    crate::place::lemma_place_order(ord, true);
    crate::comparator::lemma_order(ord);
    let es = crate::sst_build::rows_placed(c, interval, rows);
    let i = crate::sst_block::lemma_some_first(ord, es, t);
    crate::sst_block::lemma_find_is_first(ord, c, raw, 0, Seq::empty(), t, i);
    assert(es[a].place() == x.place());
    assert(!crate::place::leads(ord, true, t, t));
    if i > a {
        assert(crate::place::place_lt(ord, es[a].place(), t));
    }
    if i < a {
        assert(es[i].place() == rows[i].place());
        assert(crate::place::place_lt(ord, rows[i].place(), rows[a].place()));
    }
    assert(i == a);
    assert(crate::sst_build::row_ok(c, x));
    crate::format::lemma_entry_flags(
        crate::format::kind_is_tombstone(x.kind),
        x.kind == crate::format::KIND_SINGLE_DELETE,
        x.ttl != 0,
        x.logged is Some,
    );
    assert(crate::comparator::same_key(ord, x.key, x.key));
}

/// A key that no row of a block has at or below a sequence is not found at it:
/// nothing is told of it, not even that it was deleted.
pub proof fn lemma_absent_key_is_not_found<C: Comparator>(
    ord: C,
    c: Codec,
    interval: int,
    rows: Seq<Row>,
    key: Seq<u8>,
    seq: u64,
    now: i64,
    h: PointHit,
)
    requires
        interval > 0,
        crate::sst_build::rows_ascend(ord, rows),
        block_fits(c, interval, rows),
        forall|a: int| 0 <= a < rows.len() && ord.le((#[trigger] rows[a]).key, key) && ord.le(key, rows[a].key) ==> rows[a].seq > seq,
        crate::sst_block::split_parts(block_of(c, interval, rows), c.delta) matches Some((raw, restarts)) && (crate::sst_block::block_ok(
            ord,
            c,
            raw,
            restarts,
        ) ==> crate::sst_block::tells(h, crate::sst_block::find_point(ord, c, raw, 0, Seq::empty(), (key, seq))->Ok_0, now)),
    ensures
        !h.found,
        !h.deleted,
        h.value is None,
        h.seq == 0,
{
    let t = (key, seq);
    let raw = crate::sst_build::rows_wire(c, interval, rows);
    crate::sst_build::lemma_block_splits(c, interval, rows);
    crate::sst_build::lemma_block_is_ok(ord, c, interval, rows);
    crate::sst_build::lemma_rows_round_trip(c, interval, rows);
    crate::comparator::lemma_order(ord);
    let es = crate::sst_build::rows_placed(c, interval, rows);
    let i = crate::sst_block::lemma_some_first(ord, es, t);
    crate::sst_block::lemma_find_is_first(ord, c, raw, 0, Seq::empty(), t, i);
    if i < rows.len() {
        assert(es[i].place() == rows[i].place());
        assert(!crate::place::place_lt(ord, rows[i].place(), t));
    }
}

/// A read sees the newest version of the key that it may see: a row at or below
/// its sequence, with none of the key between the two.
pub proof fn lemma_read_skips_newer_versions<C: Comparator>(
    ord: C,
    c: Codec,
    interval: int,
    rows: Seq<Row>,
    a: int,
    seq: u64,
    now: i64,
    h: PointHit,
)
    requires
        interval > 0,
        crate::sst_build::rows_ascend(ord, rows),
        block_fits(c, interval, rows),
        0 <= a < rows.len(),
        rows[a].seq <= seq,
        forall|b: int|
            0 <= b < rows.len() && ord.le((#[trigger] rows[b]).key, rows[a].key) && ord.le(rows[a].key, rows[b].key) && rows[b].seq <= seq ==> rows[b].seq
                <= rows[a].seq,
        crate::sst_block::split_parts(block_of(c, interval, rows), c.delta) matches Some((raw, restarts)) && (crate::sst_block::block_ok(
            ord,
            c,
            raw,
            restarts,
        ) ==> crate::sst_block::tells(h, crate::sst_block::find_point(ord, c, raw, 0, Seq::empty(), (rows[a].key, seq))->Ok_0, now)),
    ensures
        h.found,
        h.seq == rows[a].seq,
        h.kind == rows[a].kind,
{
    let x = rows[a];
    let t = (x.key, seq);
    let raw = crate::sst_build::rows_wire(c, interval, rows);
    crate::sst_build::lemma_block_splits(c, interval, rows);
    crate::sst_build::lemma_block_is_ok(ord, c, interval, rows);
    crate::sst_build::lemma_rows_round_trip(c, interval, rows);
    crate::comparator::lemma_order(ord);
    crate::place::lemma_place_order(ord, true);
    let es = crate::sst_build::rows_placed(c, interval, rows);
    let i = crate::sst_block::lemma_some_first(ord, es, t);
    crate::sst_block::lemma_find_is_first(ord, c, raw, 0, Seq::empty(), t, i);
    assert(es[a].place() == x.place());
    assert(ord.le(x.key, x.key));
    if i > a {
        assert(crate::place::place_lt(ord, es[a].place(), t));
    }
    if i < a {
        assert(es[i].place() == rows[i].place());
        assert(crate::place::place_lt(ord, rows[i].place(), rows[a].place()));
        lemma_between(ord, t, rows[i], x);
    }
    assert(i == a);
    assert(crate::sst_build::row_ok(c, x));
}

} // verus!
