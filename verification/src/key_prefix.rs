//! The first eight bytes of a key as one number.
//!
//! Where the numbers of two keys differ, they stand to each other as the keys
//! do in the plain order of bytes.

use vstd::prelude::*;

use crate::comparator::{compare_bytes, KeyOrder};

verus! {

/// The byte at `i`, or zero past the end.
pub open spec fn byte_or_zero(s: Seq<u8>, i: int) -> int {
    if 0 <= i < s.len() { s[i] as int } else { 0 }
}

/// The number that bytes `from` to the eighth make, the first the most
/// significant, with zeros for those that a short key lacks.
pub open spec fn prefix_value(s: Seq<u8>, from: int) -> int
    decreases 8 - from,
{
    if from >= 8 {
        0
    } else {
        byte_or_zero(s, from) * weight(from) + prefix_value(s, from + 1)
    }
}

/// What the byte at `i` counts for.
pub open spec fn weight(i: int) -> int {
    if i == 0 {
        0x0100_0000_0000_0000
    } else if i == 1 {
        0x0001_0000_0000_0000
    } else if i == 2 {
        0x0000_0100_0000_0000
    } else if i == 3 {
        0x0000_0001_0000_0000
    } else if i == 4 {
        0x0100_0000
    } else if i == 5 {
        0x0001_0000
    } else if i == 6 {
        0x0100
    } else {
        1
    }
}

proof fn lemma_prefix_bound(s: Seq<u8>, from: int)
    requires
        0 <= from <= 8,
    ensures
        from >= 1 ==> 0 <= prefix_value(s, from) < weight(from - 1),
        0 <= prefix_value(s, from) <= u64::MAX,
    decreases 8 - from,
{
    if from < 8 {
        lemma_prefix_bound(s, from + 1);
        let b = byte_or_zero(s, from);
        let w = weight(from);
        assert(b * w <= 255 * w && b * w >= 0) by (nonlinear_arith)
            requires
                0 <= b <= 255,
                w >= 0,
        ;
    }
}

/// The first eight bytes of a key, the first the most significant.
pub fn key_prefix8(key: &[u8]) -> (r: u64)
    ensures
        r == prefix_value(key@, 0),
{
    let n = key.len();
    let mut v: u64 = 0;
    let mut i: usize = 8;
    let mut w: u64 = 1;
    while i > 0
        invariant
            i <= 8,
            n == key@.len(),
            v == prefix_value(key@, i as int),
            i > 0 ==> w == weight(i - 1),
        decreases i,
    {
        i -= 1;
        let b: u64 = if i < n { key[i] as u64 } else { 0 };
        proof {
            lemma_prefix_bound(key@, i as int);
            lemma_prefix_bound(key@, i + 1);
            assert(b == byte_or_zero(key@, i as int));
            assert(b * w == byte_or_zero(key@, i as int) * weight(i as int));
            assert(b * w >= 0) by (nonlinear_arith)
                requires
                    b >= 0,
                    w >= 0,
            ;
        }
        v = b * w + v;
        if i > 0 {
            w = w * 256;
        }
    }
    v
}

/// Where two prefixes differ, the keys stand to each other as they do.
pub proof fn lemma_prefix_decides(a: Seq<u8>, b: Seq<u8>)
    requires
        prefix_value(a, 0) < prefix_value(b, 0),
    ensures
        crate::comparator::bytes_le(a, b),
        !crate::comparator::bytes_le(b, a),
{
    lemma_prefix_decides_from(a, b, 0);
    assert(a.skip(0) =~= a);
    assert(b.skip(0) =~= b);
}

proof fn lemma_prefix_decides_from(a: Seq<u8>, b: Seq<u8>, i: int)
    requires
        0 <= i <= 8,
        i <= a.len(),
        i <= b.len(),
        prefix_value(a, i) < prefix_value(b, i),
    ensures
        crate::comparator::bytes_le(a.skip(i), b.skip(i)),
        !crate::comparator::bytes_le(b.skip(i), a.skip(i)),
    decreases 8 - i,
{
    if i < 8 {
        lemma_prefix_bound(a, i + 1);
        lemma_prefix_bound(b, i + 1);
        let x = byte_or_zero(a, i);
        let y = byte_or_zero(b, i);
        let w = weight(i);
        if x > y {
            assert(x * w >= y * w + w) by (nonlinear_arith)
                requires
                    x >= y + 1,
                    w >= 0,
            ;
            assert(false);
        }
        if i >= b.len() {
            lemma_zero_prefix(b, i);
            lemma_prefix_bound(a, i);
            assert(false);
        }
        if i < a.len() {
            assert(a.skip(i)[0] == a[i]);
            assert(b.skip(i)[0] == b[i]);
            if a[i] == b[i] {
                lemma_prefix_decides_from(a, b, i + 1);
                assert(a.skip(i).skip(1) =~= a.skip(i + 1));
                assert(b.skip(i).skip(1) =~= b.skip(i + 1));
            }
        }
    }
}

proof fn lemma_zero_prefix(s: Seq<u8>, from: int)
    requires
        s.len() <= from <= 8,
    ensures
        prefix_value(s, from) == 0,
    decreases 8 - from,
{
    if from < 8 {
        lemma_zero_prefix(s, from + 1);
    }
}

/// Compare two keys whose prefixes are known, in the plain order of bytes.
pub fn compare_prefixed(pa: u64, a: &[u8], pb: u64, b: &[u8]) -> (r: KeyOrder)
    requires
        pa == prefix_value(a@, 0),
        pb == prefix_value(b@, 0),
    ensures
        r is Less <==> !crate::comparator::bytes_le(b@, a@),
        r is Greater <==> !crate::comparator::bytes_le(a@, b@),
{
    if pa < pb {
        proof {
            lemma_prefix_decides(a@, b@);
        }
        KeyOrder::Less
    } else if pb < pa {
        proof {
            lemma_prefix_decides(b@, a@);
        }
        KeyOrder::Greater
    } else {
        compare_bytes(a, b)
    }
}

} // verus!
