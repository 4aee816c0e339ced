//! Building a data block row by row, and reading it back.

use vstd::prelude::*;

use crate::comparator::Comparator;
use crate::encoding::append_u32;
use crate::format::Fault;
use crate::sst_block::{Codec, Placed};
use crate::sst_entry::{encode_entry, encode_entry_delta, EntryLayout};

verus! {

/// One entry as it is put into a table.
#[verifier::ext_equal]
pub struct Row {
    pub key: Seq<u8>,
    pub value: Seq<u8>,
    pub seq: u64,
    pub ttl: i64,
    pub kind: u64,
    /// Where the value log holds the value, where it does.
    pub logged: Option<u64>,
}

impl Row {
    pub open spec fn place(self) -> crate::place::Place {
        (self.key, self.seq)
    }
}

pub open spec fn logged_at(r: Row) -> u64 {
    match r.logged {
        None => 0,
        Some(off) => off,
    }
}

/// How many bytes of its key a row shares with the key before.
pub open spec fn shared_of(c: Codec, prev: Seq<u8>, r: Row) -> nat {
    if c.delta { crate::sst_entry::common_len(prev, r.key) } else { 0 }
}

/// A row as bytes, behind one with the key `prev`.
pub open spec fn row_wire(c: Codec, prev: Seq<u8>, r: Row) -> Seq<u8> {
    crate::sst_entry::entry_wire(
        if c.delta { EntryLayout::Extended } else { c.layout },
        c.delta,
        shared_of(c, prev, r),
        r.key.skip(shared_of(c, prev, r) as int),
        r.value,
        r.seq,
        r.ttl,
        r.kind,
        r.logged is Some,
        logged_at(r),
    )
}

/// What an entry made from a row holds.
pub open spec fn row_fields(c: Codec, prev: Seq<u8>, r: Row) -> crate::sst_entry::Fields {
    crate::sst_entry::fields_of(
        shared_of(c, prev, r),
        r.key.skip(shared_of(c, prev, r) as int),
        r.value,
        r.seq,
        r.ttl,
        r.kind,
        r.logged is Some,
        logged_at(r),
    )
}

/// The key that row `i` of a block is stored against: none at an anchor.
pub open spec fn base_key(rows: Seq<Row>, interval: int, i: int) -> Seq<u8> {
    if i <= 0 || i % interval == 0 { Seq::empty() } else { rows[i - 1].key }
}

/// The entries of a block as bytes.
pub open spec fn rows_wire(c: Codec, interval: int, rows: Seq<Row>) -> Seq<u8>
    decreases rows.len(),
{
    if rows.len() == 0 {
        Seq::empty()
    } else {
        rows_wire(c, interval, rows.drop_last()) + row_wire(c, base_key(rows, interval, rows.len() - 1), rows.last())
    }
}

/// The offsets of the anchors of a block: the first of every `interval` rows.
pub open spec fn anchors_of(c: Codec, interval: int, rows: Seq<Row>) -> Seq<u32>
    decreases rows.len(),
{
    if rows.len() == 0 {
        Seq::empty()
    } else {
        let front = anchors_of(c, interval, rows.drop_last());
        if (rows.len() - 1) % interval == 0 {
            front.push(rows_wire(c, interval, rows.drop_last()).len() as u32)
        } else {
            front
        }
    }
}

pub open spec fn offsets_wire(v: Seq<u32>) -> Seq<u8>
    decreases v.len(),
{
    if v.len() == 0 { Seq::empty() } else { offsets_wire(v.drop_last()) + crate::encoding::le_bytes(v.last() as nat, 4) }
}

/// A whole block: entries, anchors, and their count.
pub open spec fn block_wire(entries: Seq<u8>, anchors: Seq<u32>) -> Seq<u8> {
    entries + (offsets_wire(anchors) + crate::encoding::le_bytes(anchors.len(), 4))
}

/// Append a row behind one with the key `prev`.
pub fn append_row(
    b: &mut Vec<u8>,
    c: Codec,
    prev: &[u8],
    key: &[u8],
    value: &[u8],
    seq: u64,
    ttl: i64,
    kind: u64,
    logged: Option<u64>,
)
    requires
        !(crate::format::kind_is_tombstone(kind) && logged is Some),
        !c.delta && c.layout is Base ==> crate::format::flags_suffice(kind),
    ensures
        final(b)@ == old(b)@ + row_wire(c, prev@, Row { key: key@, value: value@, seq, ttl, kind, logged }),
{
    let (has_vlog, off): (bool, u64) = match logged {
        None => (false, 0),
        Some(off) => (true, off),
    };
    if c.delta {
        encode_entry_delta(b, prev, key, value, seq, ttl, kind, has_vlog, off);
    } else {
        encode_entry(b, c.layout, key, value, seq, ttl, kind, has_vlog, off);
        assert(key@.skip(0) =~= key@);
    }
}

/// Append the trailer to the entries of a block.
pub fn append_trailer(b: &mut Vec<u8>, anchors: &Vec<u32>)
    ensures
        final(b)@ == block_wire(old(b)@, anchors@),
{
    let ghost b0 = b@;
    let mut i: usize = 0;
    proof {
        assert(anchors@.take(0) =~= Seq::empty());
        crate::encoding::lemma_cat_empty(b0);
    }
    while i < anchors.len()
        invariant
            i <= anchors@.len(),
            b@ == b0 + offsets_wire(anchors@.take(i as int)),
        decreases anchors@.len() - i,
    {
        append_u32(b, anchors[i]);
        proof {
            let part = anchors@.take(i + 1);
            assert(part.drop_last() =~= anchors@.take(i as int));
            assert(part.last() == anchors@[i as int]);
            crate::encoding::lemma_cat_assoc(b0, offsets_wire(part.drop_last()), crate::encoding::le_bytes(part.last() as nat, 4));
        }
        i += 1;
    }
    append_u32(b, (anchors.len() as u64 % 0x1_0000_0000) as u32);
    proof {
        crate::encoding::lemma_low_bytes(anchors@.len());
        assert(anchors@.take(anchors@.len() as int) =~= anchors@);
        assert(b@ =~= block_wire(b0, anchors@));
    }
}

// ---------------------------------------------------------------------------
// Laws
// ---------------------------------------------------------------------------

/// Whether a table of this kind can hold a row.
pub open spec fn row_ok(c: Codec, r: Row) -> bool {
    &&& crate::format::KIND_PUT <= r.kind <= crate::format::KIND_MERGE
    &&& !c.delta && c.layout is Base ==> crate::format::flags_suffice(r.kind)
    &&& !(crate::format::kind_is_tombstone(r.kind) && r.logged is Some)
    &&& r.key.len() <= usize::MAX
    &&& r.value.len() <= u64::MAX
}

/// Whether the rows can stand in one block.
pub open spec fn rows_ok(c: Codec, rows: Seq<Row>) -> bool {
    &&& forall|i: int| 0 <= i < rows.len() ==> row_ok(c, #[trigger] rows[i])
    &&& c.delta && c.bytewise ==> forall|i: int, j: int|
        0 <= i < j < rows.len() ==> crate::comparator::bytes_le((#[trigger] rows[i]).key, (#[trigger] rows[j]).key)
}

/// Where row `i` starts.
pub open spec fn row_start(c: Codec, interval: int, rows: Seq<Row>, i: int) -> int {
    rows_wire(c, interval, rows.take(i)).len() as int
}

/// Row `i` as it is read back.
pub open spec fn row_placed(c: Codec, interval: int, rows: Seq<Row>, i: int) -> Placed {
    Placed {
        off: row_start(c, interval, rows, i),
        next: row_start(c, interval, rows, i + 1),
        key: rows[i].key,
        fields: row_fields(c, base_key(rows, interval, i), rows[i]),
    }
}

pub open spec fn rows_placed(c: Codec, interval: int, rows: Seq<Row>) -> Seq<Placed> {
    Seq::new(rows.len(), |i: int| row_placed(c, interval, rows, i))
}

proof fn lemma_row_nonempty(c: Codec, prev: Seq<u8>, r: Row)
    ensures
        row_wire(c, prev, r).len() > 0,
{
    crate::encoding::lemma_uvarint_len(r.kind as nat);
}

/// The bytes of a block, cut before and behind row `i`.
proof fn lemma_wire_cut(c: Codec, interval: int, rows: Seq<Row>, i: int) -> (rest: Seq<u8>)
    requires
        0 <= i < rows.len(),
    ensures
        rows_wire(c, interval, rows) == rows_wire(c, interval, rows.take(i)) + (row_wire(c, base_key(rows, interval, i), rows[i]) + rest),
        row_start(c, interval, rows, i + 1) == row_start(c, interval, rows, i) + row_wire(c, base_key(rows, interval, i), rows[i]).len(),
        row_start(c, interval, rows, i + 1) <= rows_wire(c, interval, rows).len(),
        i == rows.len() - 1 ==> rest.len() == 0,
    decreases rows.len(),
{
    let n = rows.len() - 1;
    let front = rows.drop_last();
    let last = row_wire(c, base_key(rows, interval, n), rows.last());
    let t = rows.take(i + 1);
    assert(t.drop_last() =~= rows.take(i));
    assert(t.last() == rows[i]);
    assert(base_key(t, interval, i) == base_key(rows, interval, i)) by {
        if i > 0 {
            assert(t[i - 1] == rows[i - 1]);
        }
    }
    if i == n {
        assert(rows.take(i) =~= front);
        assert(t =~= rows);
        crate::encoding::lemma_cat_empty(last);
        Seq::empty()
    } else {
        let r = lemma_wire_cut(c, interval, front, i);
        assert(front.take(i) =~= rows.take(i));
        assert(front.take(i + 1) =~= t);
        assert(front[i] == rows[i]);
        assert(base_key(front, interval, i) == base_key(rows, interval, i)) by {
            if i > 0 {
                assert(front[i - 1] == rows[i - 1]);
            }
        }
        let a = rows_wire(c, interval, rows.take(i));
        let w = row_wire(c, base_key(rows, interval, i), rows[i]);
        assert((a + (w + r)) + last =~= a + (w + (r + last)));
        r + last
    }
}

/// Row `i` is read back where it stands.
proof fn lemma_row_reads(c: Codec, interval: int, rows: Seq<Row>, i: int)
    requires
        rows_ok(c, rows),
        interval > 0,
        0 <= i < rows.len(),
    ensures
        crate::sst_block::parse_at(
            c,
            rows_wire(c, interval, rows),
            row_start(c, interval, rows, i),
            if i == 0 { Seq::empty() } else { rows[i - 1].key },
        ) == Ok::<Placed, Fault>(row_placed(c, interval, rows, i)),
        row_start(c, interval, rows, i) < row_start(c, interval, rows, i + 1),
{
    let raw = rows_wire(c, interval, rows);
    let off = row_start(c, interval, rows, i);
    let rest = lemma_wire_cut(c, interval, rows, i);
    let base = base_key(rows, interval, i);
    let r = rows[i];
    let w = row_wire(c, base, r);
    lemma_row_nonempty(c, base, r);
    assert(row_ok(c, r));
    assert(raw.skip(off) =~= w + rest);
    let prev = if i == 0 { Seq::empty() } else { rows[i - 1].key };
    if c.delta {
        if c.bytewise {
            assert(crate::comparator::bytes_le(base, r.key)) by {
                if i > 0 && i % interval != 0 {
                    assert(crate::comparator::bytes_le(rows[i - 1].key, rows[i].key));
                }
            }
            assert(crate::comparator::bytes_le(prev, r.key)) by {
                if i > 0 {
                    assert(crate::comparator::bytes_le(rows[i - 1].key, rows[i].key));
                }
            }
        }
        crate::sst_entry::lemma_delta_round_trip(base, r.key, r.value, r.seq, r.ttl, r.kind, r.logged is Some, logged_at(r), c.bytewise, rest);
        if base != prev {
            assert(crate::sst_entry::common_len(base, r.key) == 0);
            let f = row_fields(c, base, r);
            assert(prev.take(0) + f.key =~= r.key);
        }
    } else {
        assert(r.key.skip(0) =~= r.key);
        crate::sst_entry::lemma_entry_round_trip(c.layout, r.key, r.value, r.seq, r.ttl, r.kind, r.logged is Some, logged_at(r), rest);
    }
    assert(raw.len() - rest.len() == row_start(c, interval, rows, i + 1));
}

#[verifier::rlimit(60)]
proof fn lemma_rows_read_from(c: Codec, interval: int, rows: Seq<Row>, i: int)
    requires
        rows_ok(c, rows),
        interval > 0,
        0 <= i <= rows.len(),
    ensures
        crate::sst_block::walk(
            c,
            rows_wire(c, interval, rows),
            row_start(c, interval, rows, i),
            if i == 0 { Seq::empty() } else { rows[i - 1].key },
        ) == Ok::<Seq<Placed>, Fault>(rows_placed(c, interval, rows).skip(i)),
    decreases rows.len() - i,
{
    let raw = rows_wire(c, interval, rows);
    let all = rows_placed(c, interval, rows);
    if i == rows.len() {
        assert(rows.take(i) =~= rows);
        assert(all.skip(i) =~= Seq::empty());
    } else {
        let rest = lemma_wire_cut(c, interval, rows, i);
        lemma_row_reads(c, interval, rows, i);
        lemma_rows_read_from(c, interval, rows, i + 1);
        assert(all.skip(i) =~= seq![all[i]] + all.skip(i + 1));
    }
}

/// The rows of a block are read back as they were put in.
pub proof fn lemma_rows_round_trip(c: Codec, interval: int, rows: Seq<Row>)
    requires
        rows_ok(c, rows),
        interval > 0,
    ensures
        crate::sst_block::entries_of(c, rows_wire(c, interval, rows)) == Ok::<Seq<Placed>, Fault>(rows_placed(c, interval, rows)),
{
    lemma_rows_read_from(c, interval, rows, 0);
    assert(rows.take(0) =~= Seq::empty());
    assert(rows_wire(c, interval, rows.take(0)).len() == 0);
    assert(rows_placed(c, interval, rows).skip(0) =~= rows_placed(c, interval, rows));
}

pub proof fn lemma_offsets(v: Seq<u32>, rest: Seq<u8>, k: int)
    requires
        0 <= k < v.len(),
    ensures
        offsets_wire(v).len() == 4 * v.len(),
        crate::sst_format::u32_at(offsets_wire(v) + rest, 4 * k) == v[k],
    decreases v.len(),
{
    lemma_offsets_len(v);
    lemma_offsets_len(v.drop_last());
    let last = crate::encoding::le_bytes(v.last() as nat, 4);
    crate::encoding::lemma_le_bytes_len(v.last() as nat, 4);
    let w = offsets_wire(v) + rest;
    if k == v.len() - 1 {
        assert(w.subrange(4 * k, 4 * k + 4) =~= last);
        crate::sst_format::lemma_number4(w, 4 * k, v[k]);
    } else {
        lemma_offsets(v.drop_last(), last + rest, k);
        assert(w =~= offsets_wire(v.drop_last()) + (last + rest));
    }
}

pub proof fn lemma_offsets_len(v: Seq<u32>)
    ensures
        offsets_wire(v).len() == 4 * v.len(),
    decreases v.len(),
{
    if v.len() > 0 {
        lemma_offsets_len(v.drop_last());
        crate::encoding::lemma_le_bytes_len(v.last() as nat, 4);
    }
}

/// Anchor `k` is where a row starts that is stored against no other.
proof fn lemma_anchor_is_row(c: Codec, interval: int, rows: Seq<Row>, k: int) -> (i: int)
    requires
        interval > 0,
        rows_wire(c, interval, rows).len() <= u32::MAX,
        0 <= k < anchors_of(c, interval, rows).len(),
    ensures
        0 <= i < rows.len(),
        i % interval == 0,
        anchors_of(c, interval, rows)[k] == row_start(c, interval, rows, i),
        k == 0 ==> i == 0,
        k > 0 ==> i > 0,
    decreases rows.len(),
{
    let n = rows.len() - 1;
    let front = rows.drop_last();
    let a = anchors_of(c, interval, front);
    let rest = lemma_wire_cut(c, interval, rows, n);
    assert(rows.take(n) =~= front);
    if n % interval == 0 && k == a.len() {
        if n > 0 {
            lemma_first_anchor(c, interval, front);
        }
        n
    } else {
        let i = lemma_anchor_is_row(c, interval, front, k);
        assert(front.take(i) =~= rows.take(i));
        i
    }
}

proof fn lemma_first_anchor(c: Codec, interval: int, rows: Seq<Row>)
    requires
        interval > 0,
        rows.len() > 0,
    ensures
        anchors_of(c, interval, rows).len() > 0,
    decreases rows.len(),
{
    if rows.len() > 1 {
        lemma_first_anchor(c, interval, rows.drop_last());
    } else {
        assert(0int % interval == 0) by (nonlinear_arith)
            requires
                interval > 0,
        ;
    }
}

/// The anchors ascend.
proof fn lemma_anchors_ascend(c: Codec, interval: int, rows: Seq<Row>)
    requires
        interval > 0,
        rows_wire(c, interval, rows).len() <= u32::MAX,
    ensures
        forall|k: int| 0 <= k < anchors_of(c, interval, rows).len() ==> #[trigger] anchors_of(c, interval, rows)[k] < rows_wire(c, interval, rows).len(),
        forall|j: int, k: int|
            0 <= j < k < anchors_of(c, interval, rows).len() ==> #[trigger] anchors_of(c, interval, rows)[j] < #[trigger] anchors_of(
                c,
                interval,
                rows,
            )[k],
    decreases rows.len(),
{
    if rows.len() > 0 {
        let n = rows.len() - 1;
        let front = rows.drop_last();
        let rest = lemma_wire_cut(c, interval, rows, n);
        assert(rows.take(n) =~= front);
        lemma_row_nonempty(c, base_key(rows, interval, n), rows.last());
        lemma_anchors_ascend(c, interval, front);
        let a = anchors_of(c, interval, front);
        let b = anchors_of(c, interval, rows);
        assert forall|k: int| 0 <= k < b.len() implies #[trigger] b[k] < rows_wire(c, interval, rows).len() by {
            if k < a.len() {
                assert(b[k] == a[k]);
            }
        }
        assert forall|j: int, k: int| 0 <= j < k < b.len() implies #[trigger] b[j] < #[trigger] b[k] by {
            assert(b[j] == a[j]);
            if k < a.len() {
                assert(b[k] == a[k]);
            }
        }
    }
}

/// A finished block splits into the entries and the anchors it was made of.
pub proof fn lemma_block_splits(c: Codec, interval: int, rows: Seq<Row>)
    requires
        interval > 0,
        rows_wire(c, interval, rows).len() <= u32::MAX,
        anchors_of(c, interval, rows).len() <= u32::MAX,
    ensures
        crate::sst_block::split_parts(block_wire(rows_wire(c, interval, rows), anchors_of(c, interval, rows)), c.delta) == Some(
            (rows_wire(c, interval, rows), offsets_wire(anchors_of(c, interval, rows))),
        ),
{
    let e = rows_wire(c, interval, rows);
    let a = anchors_of(c, interval, rows);
    let o = offsets_wire(a);
    let n = crate::encoding::le_bytes(a.len(), 4);
    let b = block_wire(e, a);
    lemma_offsets_len(a);
    crate::encoding::lemma_le_bytes_len(a.len(), 4);
    assert(b.subrange(b.len() - 4, b.len() as int) =~= n);
    crate::sst_format::lemma_number4(b, b.len() - 4, a.len() as u32);
    let end = b.len() - 4 * a.len() - 4;
    assert(b.take(end) =~= e);
    assert(b.subrange(end, b.len() - 4) =~= o);
    if c.delta {
        crate::encoding::lemma_cat_empty(o);
        assert forall|k: int| 0 <= k < a.len() implies #[trigger] crate::sst_block::restart_at(o, k) == a[k] by {
            lemma_offsets(a, Seq::empty(), k);
        }
        lemma_anchors_ascend(c, interval, rows);
        if rows.len() > 0 {
            lemma_first_anchor(c, interval, rows);
            let i = lemma_anchor_is_row(c, interval, rows, 0);
            assert(rows.take(0) =~= Seq::empty());
            let rest = lemma_wire_cut(c, interval, rows, 0);
            lemma_row_nonempty(c, base_key(rows, interval, 0), rows[0]);
        }
        assert(crate::sst_block::restarts_valid(end, o));
    }
}

/// Whether the rows ascend.
pub open spec fn rows_ascend<C: Comparator>(ord: C, rows: Seq<Row>) -> bool {
    forall|i: int, j: int| 0 <= i < j < rows.len() ==> crate::place::place_lt(ord, (#[trigger] rows[i]).place(), (#[trigger] rows[j]).place())
}

/// A block of ascending rows is a block as it should be: its entries ascend and
/// every anchor is an entry that can be read on its own.
pub proof fn lemma_block_is_ok<C: Comparator>(ord: C, c: Codec, interval: int, rows: Seq<Row>)
    requires
        interval > 0,
        rows_ok(c, rows),
        rows_ascend(ord, rows),
        rows_wire(c, interval, rows).len() <= u32::MAX,
    ensures
        crate::sst_block::block_ok(ord, c, rows_wire(c, interval, rows), offsets_wire(anchors_of(c, interval, rows))),
{
    let es = rows_placed(c, interval, rows);
    let a = anchors_of(c, interval, rows);
    let o = offsets_wire(a);
    lemma_rows_round_trip(c, interval, rows);
    assert forall|i: int, j: int| 0 <= i < j < es.len() implies crate::place::place_lt(
        ord,
        (#[trigger] es[i]).place(),
        (#[trigger] es[j]).place(),
    ) by {
        assert(es[i].place() == rows[i].place());
        assert(es[j].place() == rows[j].place());
    }
    assert(crate::sst_block::ascending(ord, es));
    lemma_offsets_len(a);
    assert(crate::sst_block::restart_count(o) == a.len());
    assert forall|k: int| 0 <= k < crate::sst_block::restart_count(o) implies crate::sst_block::has_anchor(
        c,
        es,
        #[trigger] crate::sst_block::restart_at(o, k),
    ) by {
        crate::encoding::lemma_cat_empty(o);
        lemma_offsets(a, Seq::empty(), k);
        let i = lemma_anchor_is_row(c, interval, rows, k);
        assert(es[i].off == a[k]);
        assert(base_key(rows, interval, i) == Seq::<u8>::empty());
        assert(crate::sst_entry::common_len(Seq::<u8>::empty(), rows[i].key) == 0);
        assert(crate::sst_block::is_anchor(c, es, i, crate::sst_block::restart_at(o, k)));
    }
}

} // verus!
