//! The durable id of a column family in the log that all families share.

use vstd::prelude::*;

verus! {

/// FNV-1a over some bytes.
pub open spec fn fnv1a(s: Seq<u8>) -> u64
    decreases s.len(),
{
    if s.len() == 0 {
        0xcbf2_9ce4_8422_2325
    } else {
        vstd::wrapping::u64_specs::wrapping_mul(fnv1a(s.drop_last()) ^ (s.last() as u64), 0x0000_0100_0000_01b3)
    }
}

/// The id of the column family called `name`: FNV-1a over its UTF-8 bytes.
pub fn cf_id(name: &str) -> (r: u64)
    ensures
        r == fnv1a(vstd::utf8::encode_utf8(name@)),
{
    let b = name.as_bytes();
    let mut h: u64 = 0xcbf2_9ce4_8422_2325;
    let mut i: usize = 0;
    assert(b@.take(0) =~= Seq::empty());
    while i < b.len()
        invariant
            i <= b@.len(),
            h == fnv1a(b@.take(i as int)),
        decreases b@.len() - i,
    {
        h = (h ^ (b[i] as u64)).wrapping_mul(0x0000_0100_0000_01b3);
        assert(b@.take(i + 1).drop_last() =~= b@.take(i as int));
        i += 1;
    }
    assert(b@.take(b@.len() as int) =~= b@);
    h
}

/// The number of a family takes in its name byte by byte: each is mixed into
/// the low bits, and all of it is then multiplied, modulo the width of the
/// number.
pub proof fn lemma_number_takes_in_each_byte(s: Seq<u8>, b: u8)
    ensures
        fnv1a(s.push(b)) as int == ((fnv1a(s) ^ (b as u64)) * 0x0000_0100_0000_01b3) % 0x1_0000_0000_0000_0000,
        fnv1a(Seq::empty()) == 0xcbf2_9ce4_8422_2325,
{
    assert(s.push(b).drop_last() =~= s);
}

} // verus!
