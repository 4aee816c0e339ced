//! Byte-level codecs: little-endian integers, LEB128 varints, zigzag varints
//! and the CRC32-C checksum.

use vstd::prelude::*;

verus! {

// ---------------------------------------------------------------------------
// Byte sequences
// ---------------------------------------------------------------------------

/// Concatenation is associative. Writing every grouping as the right-nested
/// one lets a field's own round trip be used wherever the field stands.
pub broadcast proof fn lemma_cat_assoc(a: Seq<u8>, b: Seq<u8>, c: Seq<u8>)
    ensures
        #[trigger] ((a + b) + c) == a + (b + c),
{
    assert((a + b) + c =~= a + (b + c));
}

/// Nothing appended changes nothing.
pub proof fn lemma_cat_empty(a: Seq<u8>)
    ensures
        a + Seq::<u8>::empty() == a,
        Seq::<u8>::empty() + a == a,
{
    assert(a + Seq::<u8>::empty() =~= a);
    assert(Seq::<u8>::empty() + a =~= a);
}

/// Append every byte of `s` to `b`.
pub fn append_slice(b: &mut Vec<u8>, s: &[u8])
    ensures
        final(b)@ == old(b)@ + s@,
{
    let ghost b0 = b@;
    b.extend_from_slice(s);
    assert(b@ =~= b0 + s@);
}

/// A copy of some bytes.
pub fn copy_bytes(s: &[u8]) -> (r: Vec<u8>)
    ensures
        r@ == s@,
{
    let mut r: Vec<u8> = Vec::with_capacity(s.len());
    append_slice(&mut r, s);
    assert(r@ =~= s@);
    r
}

/// Whether two byte strings are the same.
pub fn bytes_eq(a: &[u8], b: &[u8]) -> (r: bool)
    ensures
        r == (a@ == b@),
{
    if a.len() != b.len() {
        return false;
    }
    let mut i: usize = 0;
    while i < a.len()
        invariant
            i <= a.len(),
            a.len() == b.len(),
            forall|j: int| 0 <= j < i ==> a@[j] == b@[j],
        decreases a.len() - i,
    {
        if a[i] != b[i] {
            return false;
        }
        i += 1;
    }
    assert(a@ =~= b@);
    true
}

// ---------------------------------------------------------------------------
// Fixed-width little-endian and big-endian integers
// ---------------------------------------------------------------------------

/// The `n` low bytes of `v`, least significant first.
pub open spec fn le_bytes(v: nat, n: nat) -> Seq<u8>
    decreases n,
{
    if n == 0 {
        Seq::empty()
    } else {
        seq![(v % 256) as u8] + le_bytes(v / 256, (n - 1) as nat)
    }
}

/// The number whose bytes, least significant first, are `s`.
pub open spec fn le_value(s: Seq<u8>) -> nat
    decreases s.len(),
{
    if s.len() == 0 {
        0
    } else {
        s[0] as nat + 256 * le_value(s.skip(1))
    }
}

/// The number whose bytes, most significant first, are `s`.
pub open spec fn be_value(s: Seq<u8>) -> nat
    decreases s.len(),
{
    if s.len() == 0 {
        0
    } else {
        256 * be_value(s.drop_last()) + s.last() as nat
    }
}

/// The `n` low bytes of `v`, most significant first.
pub open spec fn be_bytes(v: nat, n: nat) -> Seq<u8>
    decreases n,
{
    if n == 0 {
        Seq::empty()
    } else {
        be_bytes(v / 256, (n - 1) as nat).push((v % 256) as u8)
    }
}

/// 256 to the power `n`.
pub open spec fn pow256(n: nat) -> nat
    decreases n,
{
    if n == 0 { 1 } else { 256 * pow256((n - 1) as nat) }
}

pub proof fn lemma_pow256()
    ensures
        pow256(1) == 0x100,
        pow256(2) == 0x1_0000,
        pow256(4) == 0x1_0000_0000,
        pow256(8) == 0x1_0000_0000_0000_0000,
{
    reveal_with_fuel(pow256, 9);
}

/// A number that fits in `n` bytes is read back from them.
pub proof fn lemma_le_round_trip(v: nat, n: nat)
    requires
        v < pow256(n),
    ensures
        le_bytes(v, n).len() == n,
        le_value(le_bytes(v, n)) == v,
    decreases n,
{
    if n > 0 {
        assert(v / 256 < pow256((n - 1) as nat));
        lemma_le_round_trip(v / 256, (n - 1) as nat);
        assert(le_bytes(v, n).skip(1) =~= le_bytes(v / 256, (n - 1) as nat));
    }
}

/// The low `n` bytes of a number do not depend on what stands above them.
proof fn lemma_low_part(v: nat, q: nat, n: nat)
    ensures
        le_bytes(v + pow256(n) * q, n) == le_bytes(v, n),
    decreases n,
{
    if n > 0 {
        let p = pow256((n - 1) as nat);
        let t = p * q;
        assert((256 * p) * q == 256 * (p * q)) by (nonlinear_arith);
        let w: nat = v + pow256(n) * q;
        assert(w == v + 256 * t);
        assert(w % 256 == v % 256);
        assert(w / 256 == v / 256 + t);
        lemma_low_part(v / 256, q, (n - 1) as nat);
    }
}

/// Four bytes of a number are those of its low half.
pub proof fn lemma_low_bytes(n: nat)
    ensures
        le_bytes(n, 4) == le_bytes(n % 0x1_0000_0000, 4),
{
    lemma_pow256();
    lemma_low_part(n % 0x1_0000_0000, n / 0x1_0000_0000, 4);
}

pub proof fn lemma_le_bytes_len(v: nat, n: nat)
    ensures
        le_bytes(v, n).len() == n,
    decreases n,
{
    if n > 0 {
        lemma_le_bytes_len(v / 256, (n - 1) as nat);
    }
}

/// The value of `n` bytes is below 256 to the power `n`.
pub proof fn lemma_le_value_bound(s: Seq<u8>)
    ensures
        le_value(s) < pow256(s.len()),
    decreases s.len(),
{
    if s.len() > 0 {
        lemma_le_value_bound(s.skip(1));
    }
}

/// The bytes of a value are the bytes it was read from.
pub proof fn lemma_le_value_bytes(s: Seq<u8>)
    ensures
        le_bytes(le_value(s), s.len()) == s,
    decreases s.len(),
{
    if s.len() > 0 {
        lemma_le_value_bytes(s.skip(1));
        let v = le_value(s);
        assert(v % 256 == s[0] as nat);
        assert(v / 256 == le_value(s.skip(1)));
        assert(le_bytes(v, s.len()) =~= s);
    } else {
        assert(le_bytes(le_value(s), s.len()) =~= s);
    }
}

pub proof fn lemma_be_round_trip(v: nat, n: nat)
    requires
        v < pow256(n),
    ensures
        be_bytes(v, n).len() == n,
        be_value(be_bytes(v, n)) == v,
    decreases n,
{
    if n > 0 {
        assert(v / 256 < pow256((n - 1) as nat));
        lemma_be_round_trip(v / 256, (n - 1) as nat);
        assert(be_bytes(v, n).drop_last() =~= be_bytes(v / 256, (n - 1) as nat));
    }
}

pub proof fn lemma_be_value_bound(s: Seq<u8>)
    ensures
        be_value(s) < pow256(s.len()),
    decreases s.len(),
{
    if s.len() > 0 {
        lemma_be_value_bound(s.drop_last());
    }
}

fn append_le(b: &mut Vec<u8>, v: u64, n: usize)
    ensures
        final(b)@ == old(b)@ + le_bytes(v as nat, n as nat),
    decreases n,
{
    let ghost b0 = b@;
    if n == 0 {
        assert(b@ =~= b0 + le_bytes(v as nat, n as nat));
    } else {
        b.push((v % 256) as u8);
        append_le(b, v / 256, n - 1);
        assert(b@ =~= b0 + le_bytes(v as nat, n as nat));
    }
}

fn read_le(s: &[u8], pos: usize, n: usize) -> (r: u64)
    requires
        pos + n <= s.len(),
        n <= 8,
    ensures
        r == le_value(s@.subrange(pos as int, pos + n)),
    decreases n,
{
    if n == 0 {
        0
    } else {
        let hi = read_le(s, pos + 1, n - 1);
        let ghost sub = s@.subrange(pos as int, pos + n);
        proof {
            assert(sub.skip(1) =~= s@.subrange(pos + 1, pos + n));
            lemma_le_value_bound(sub);
            lemma_pow256_mono(n as nat, 8);
            lemma_pow256();
        }
        s[pos] as u64 + 256 * hi
    }
}

pub proof fn lemma_pow256_mono(a: nat, b: nat)
    requires
        a <= b,
    ensures
        0 < pow256(a) <= pow256(b),
    decreases b,
{
    if b > 0 {
        if a == b {
            lemma_pow256_mono((a - 1) as nat, (b - 1) as nat);
        } else {
            lemma_pow256_mono(a, (b - 1) as nat);
        }
    }
}

/// Append `v` as four bytes, least significant first.
pub fn append_u32(b: &mut Vec<u8>, v: u32)
    ensures
        final(b)@ == old(b)@ + le_bytes(v as nat, 4),
{
    append_le(b, v as u64, 4)
}

/// Append `v` as eight bytes, least significant first.
pub fn append_u64(b: &mut Vec<u8>, v: u64)
    ensures
        final(b)@ == old(b)@ + le_bytes(v as nat, 8),
{
    append_le(b, v, 8)
}

/// Append `v` as eight bytes, most significant first.
pub fn append_u64_be(b: &mut Vec<u8>, v: u64)
    ensures
        final(b)@ == old(b)@ + be_bytes(v as nat, 8),
{
    append_be(b, v, 8)
}

fn append_be(b: &mut Vec<u8>, v: u64, n: usize)
    ensures
        final(b)@ == old(b)@ + be_bytes(v as nat, n as nat),
    decreases n,
{
    let ghost b0 = b@;
    if n == 0 {
        assert(b@ =~= b0 + be_bytes(v as nat, n as nat));
    } else {
        append_be(b, v / 256, n - 1);
        b.push((v % 256) as u8);
        assert(b@ =~= b0 + be_bytes(v as nat, n as nat));
    }
}

fn read_be(s: &[u8], pos: usize, n: usize) -> (r: u64)
    requires
        pos + n <= s.len(),
        n <= 8,
    ensures
        r == be_value(s@.subrange(pos as int, pos + n)),
    decreases n,
{
    if n == 0 {
        0
    } else {
        let hi = read_be(s, pos, n - 1);
        let ghost sub = s@.subrange(pos as int, pos + n);
        proof {
            assert(sub.drop_last() =~= s@.subrange(pos as int, pos + n - 1));
            lemma_be_value_bound(sub);
            lemma_pow256_mono(n as nat, 8);
            lemma_pow256();
        }
        256 * hi + s[pos + (n - 1)] as u64
    }
}

/// The eight bytes at `pos`, most significant first.
pub fn read_u64_be(s: &[u8], pos: usize) -> (r: u64)
    requires
        pos + 8 <= s.len(),
    ensures
        r == be_value(s@.subrange(pos as int, pos + 8)),
{
    read_be(s, pos, 8)
}

/// The first four bytes of `s` as a number, least significant first.
pub fn read_u32(s: &[u8]) -> (r: u32)
    requires
        s.len() >= 4,
    ensures
        r == le_value(s@.take(4)),
{
    read_u32_at(s, 0)
}

/// The four bytes at `pos` as a number, least significant first.
pub fn read_u32_at(s: &[u8], pos: usize) -> (r: u32)
    requires
        pos + 4 <= s.len(),
    ensures
        r == le_value(s@.subrange(pos as int, pos + 4)),
        pos == 0 ==> r == le_value(s@.take(4)),
{
    let v = read_le(s, pos, 4);
    proof {
        lemma_le_value_bound(s@.subrange(pos as int, pos + 4));
        lemma_pow256();
        if pos == 0 {
            assert(s@.take(4) =~= s@.subrange(0, 4));
        }
    }
    v as u32
}

/// The first eight bytes of `s` as a number, least significant first.
pub fn read_u64(s: &[u8]) -> (r: u64)
    requires
        s.len() >= 8,
    ensures
        r == le_value(s@.take(8)),
{
    read_u64_at(s, 0)
}

/// The eight bytes at `pos` as a number, least significant first.
pub fn read_u64_at(s: &[u8], pos: usize) -> (r: u64)
    requires
        pos + 8 <= s.len(),
    ensures
        r == le_value(s@.subrange(pos as int, pos + 8)),
        pos == 0 ==> r == le_value(s@.take(8)),
{
    proof {
        if pos == 0 {
            assert(s@.take(8) =~= s@.subrange(0, 8));
        }
    }
    read_le(s, pos, 8)
}

/// Overwrite the four bytes at `pos` with `v`, least significant first.
pub fn put_u32_at(b: &mut Vec<u8>, pos: usize, v: u32)
    requires
        pos + 4 <= old(b).len(),
    ensures
        final(b)@ == old(b)@.take(pos as int) + le_bytes(v as nat, 4) + old(b)@.skip(pos + 4),
{
    let ghost b0 = b@;
    let mut enc: Vec<u8> = Vec::new();
    append_u32(&mut enc, v);
    proof {
        lemma_le_bytes_len(v as nat, 4);
        assert(enc@ =~= le_bytes(v as nat, 4));
    }
    b.set(pos, enc[0]);
    b.set(pos + 1, enc[1]);
    b.set(pos + 2, enc[2]);
    b.set(pos + 3, enc[3]);
    assert(b@ =~= b0.take(pos as int) + le_bytes(v as nat, 4) + b0.skip(pos + 4));
}

// ---------------------------------------------------------------------------
// Varints
// ---------------------------------------------------------------------------

/// LEB128: seven bits to a byte, least significant first, the top bit set on
/// every byte but the last.
pub open spec fn uvarint_bytes(v: nat) -> Seq<u8>
    decreases v,
{
    if v < 128 {
        seq![v as u8]
    } else {
        seq![(v % 128 + 128) as u8] + uvarint_bytes(v / 128)
    }
}

/// What a varint that continues at its `k`-th byte can still add, divided by
/// the weight of that byte: a value has 64 bits.
pub open spec fn uvarint_bound(k: nat) -> nat {
    if k == 0 { 0x1_0000_0000_0000_0000 }
    else if k == 1 { 0x200_0000_0000_0000 }
    else if k == 2 { 0x4_0000_0000_0000 }
    else if k == 3 { 0x800_0000_0000 }
    else if k == 4 { 0x10_0000_0000 }
    else if k == 5 { 0x2000_0000 }
    else if k == 6 { 0x40_0000 }
    else if k == 7 { 0x8000 }
    else if k == 8 { 0x100 }
    else { 2 }
}

/// Read a varint from the front of `s`, of which `k` bytes are already read:
/// the value and what follows it. A tenth byte above 1, or the end of the
/// bytes before the last one of the varint, is no varint.
pub open spec fn parse_uvarint_from(s: Seq<u8>, k: nat) -> Option<(nat, Seq<u8>)>
    decreases s.len(),
{
    if s.len() == 0 || k > 9 || (k == 9 && s[0] > 1) {
        None
    } else if s[0] < 128 {
        Some((s[0] as nat, s.skip(1)))
    } else {
        match parse_uvarint_from(s.skip(1), k + 1) {
            None => None,
            Some((v, rest)) => Some(((s[0] - 128) as nat + 128 * v, rest)),
        }
    }
}

/// Read a varint from the front of `s`: the value and what follows it.
pub open spec fn parse_uvarint(s: Seq<u8>) -> Option<(u64, Seq<u8>)> {
    match parse_uvarint_from(s, 0) {
        None => None,
        Some((v, rest)) => Some((v as u64, rest)),
    }
}

pub proof fn lemma_uvarint_value_bound(s: Seq<u8>, k: nat)
    ensures
        parse_uvarint_from(s, k) matches Some((v, rest)) ==> v < uvarint_bound(k) && rest.len() < s.len()
            && rest == s.skip(s.len() - rest.len()),
    decreases s.len(),
{
    if s.len() == 0 || k > 9 || (k == 9 && s[0] > 1) {
    } else if s[0] < 128 {
    } else {
        lemma_uvarint_value_bound(s.skip(1), k + 1);
        match parse_uvarint_from(s.skip(1), k + 1) {
            None => {},
            Some((v, rest)) => {
                assert(rest =~= s.skip(s.len() - rest.len()));
            },
        }
    }
}

/// What `uvarint_bytes` writes is read back, with what follows it untouched.
pub proof fn lemma_uvarint_round_trip_from(v: nat, k: nat, rest: Seq<u8>)
    requires
        k <= 9,
        v < uvarint_bound(k),
    ensures
        parse_uvarint_from(uvarint_bytes(v) + rest, k) == Some((v, rest)),
    decreases v,
{
    let s = uvarint_bytes(v) + rest;
    if v < 128 {
        assert(s.skip(1) =~= rest);
    } else {
        assert(s[0] == (v % 128 + 128) as u8);
        assert(s.skip(1) =~= uvarint_bytes(v / 128) + rest);
        assert(k < 9);
        lemma_uvarint_round_trip_from(v / 128, k + 1, rest);
    }
}

/// A 64-bit value written as a varint is read back, with what follows it
/// untouched.
pub broadcast proof fn lemma_uvarint_round_trip(v: u64, rest: Seq<u8>)
    ensures
        #[trigger] parse_uvarint(uvarint_bytes(v as nat) + rest) == Some((v, rest)),
{
    lemma_uvarint_round_trip_from(v as nat, 0, rest);
}

pub proof fn lemma_uvarint_len(v: nat)
    ensures
        uvarint_bytes(v).len() >= 1,
        v < 0x1_0000_0000_0000_0000 ==> uvarint_bytes(v).len() <= 10,
{
    reveal_with_fuel(uvarint_bytes, 11);
}

/// Append `v` as a varint.
pub fn append_uvarint(b: &mut Vec<u8>, v: u64)
    ensures
        final(b)@ == old(b)@ + uvarint_bytes(v as nat),
    decreases v,
{
    let ghost b0 = b@;
    if v < 128 {
        b.push(v as u8);
        assert(b@ =~= b0 + uvarint_bytes(v as nat));
    } else {
        b.push((v % 128 + 128) as u8);
        append_uvarint(b, v / 128);
        assert(b@ =~= b0 + uvarint_bytes(v as nat));
    }
}

fn uvarint_from(p: &[u8], pos: usize, k: u8) -> (r: Option<(u64, usize)>)
    requires
        pos <= p.len(),
        k <= 10,
    ensures
        match r {
            Some((v, n)) => pos < n <= p.len() && parse_uvarint_from(p@.skip(pos as int), k as nat) == Some(
                (v as nat, p@.skip(n as int)),
            ),
            None => parse_uvarint_from(p@.skip(pos as int), k as nat) is None,
        },
    decreases p.len() - pos,
{
    let ghost s = p@.skip(pos as int);
    if pos == p.len() || k > 9 {
        return None;
    }
    let b = p[pos];
    assert(b == s[0]);
    if k == 9 && b > 1 {
        return None;
    }
    assert(s.skip(1) =~= p@.skip(pos + 1));
    if b < 128 {
        return Some((b as u64, pos + 1));
    }
    match uvarint_from(p, pos + 1, k + 1) {
        None => None,
        Some((v, n)) => {
            proof {
                lemma_uvarint_value_bound(s, k as nat);
            }
            Some(((b - 128) as u64 + 128 * v, n))
        },
    }
}

/// Read a varint at the front of `p`: its value and its length.
pub fn uvarint(p: &[u8]) -> (r: Option<(u64, usize)>)
    ensures
        match r {
            Some((v, n)) => 0 < n <= p.len() && parse_uvarint(p@) == Some((v, p@.skip(n as int))),
            None => parse_uvarint(p@) is None,
        },
{
    assert(p@.skip(0) =~= p@);
    uvarint_from(p, 0, 0)
}

/// The zigzag image of a signed value: small magnitudes stay small.
pub open spec fn zigzag(v: int) -> nat {
    if v >= 0 { (2 * v) as nat } else { (-2 * v - 1) as nat }
}

/// The signed value that a zigzag image stands for.
pub open spec fn unzigzag(u: nat) -> int {
    if u % 2 == 0 { (u / 2) as int } else { -((u / 2) as int) - 1 }
}

/// Read a signed varint from the front of `s`.
pub open spec fn parse_varint(s: Seq<u8>) -> Option<(i64, Seq<u8>)> {
    match parse_uvarint(s) {
        None => None,
        Some((u, rest)) => Some((unzigzag(u as nat) as i64, rest)),
    }
}

/// A signed value as bytes.
pub open spec fn varint_bytes(v: int) -> Seq<u8> {
    uvarint_bytes(zigzag(v))
}

/// A signed 64-bit value written as a varint is read back, with what follows
/// it untouched.
pub broadcast proof fn lemma_varint_round_trip(v: i64, rest: Seq<u8>)
    ensures
        #[trigger] parse_varint(varint_bytes(v as int) + rest) == Some((v, rest)),
{
    let u = zigzag(v as int);
    assert(u < 0x1_0000_0000_0000_0000);
    lemma_uvarint_round_trip(u as u64, rest);
}

/// Append `v` as a signed varint.
pub fn append_varint(b: &mut Vec<u8>, v: i64)
    ensures
        final(b)@ == old(b)@ + varint_bytes(v as int),
{
    let u: u64 = if v >= 0 { (v as u64) * 2 } else { ((-(v + 1)) as u64) * 2 + 1 };
    assert(u == zigzag(v as int));
    append_uvarint(b, u)
}

/// Read a signed varint at the front of `p`: its value and its length.
pub fn varint(p: &[u8]) -> (r: Option<(i64, usize)>)
    ensures
        match r {
            Some((v, n)) => 0 < n <= p.len() && parse_varint(p@) == Some((v, p@.skip(n as int))),
            None => parse_varint(p@) is None,
        },
{
    match uvarint(p) {
        None => None,
        Some((u, n)) => {
            let half: i64 = (u / 2) as i64;
            let v: i64 = if u % 2 == 0 { half } else { -half - 1 };
            Some((v, n))
        },
    }
}

// ---------------------------------------------------------------------------
// CRC32-C
// ---------------------------------------------------------------------------

/// One bit of the reflected Castagnoli division.
pub open spec fn crc_bit(c: u32) -> u32 {
    if c & 1 == 1 { (c >> 1) ^ 0x82F6_3B78u32 } else { c >> 1 }
}

/// `n` bits of the division.
pub open spec fn crc_bits(c: u32, n: nat) -> u32
    decreases n,
{
    if n == 0 { c } else { crc_bit(crc_bits(c, (n - 1) as nat)) }
}

/// The register after all bytes of `s`.
pub open spec fn crc_register(s: Seq<u8>) -> u32
    decreases s.len(),
{
    if s.len() == 0 {
        0xFFFF_FFFFu32
    } else {
        crc_bits(crc_register(s.drop_last()) ^ (s.last() as u32), 8)
    }
}

/// CRC32-C of `s`.
pub open spec fn crc32c(s: Seq<u8>) -> u32 {
    !crc_register(s)
}

/// CRC32-C of some bytes.
pub fn checksum(s: &[u8]) -> (r: u32)
    ensures
        r == crc32c(s@),
{
    let mut c: u32 = 0xFFFF_FFFF;
    let mut i: usize = 0;
    while i < s.len()
        invariant
            i <= s.len(),
            c == crc_register(s@.take(i as int)),
        decreases s.len() - i,
    {
        let ghost before = c;
        c = c ^ (s[i] as u32);
        let ghost start = c;
        let mut k: u32 = 0;
        while k < 8
            invariant
                k <= 8,
                c == crc_bits(start, k as nat),
            decreases 8 - k,
        {
            c = if c & 1 == 1 { (c >> 1) ^ 0x82F6_3B78u32 } else { c >> 1 };
            k += 1;
        }
        assert(s@.take(i + 1).drop_last() =~= s@.take(i as int));
        i += 1;
    }
    assert(s@.take(s@.len() as int) =~= s@);
    !c
}

/// The zigzag image goes back and forth between the signs: 0, -1, 1, -2, 2 and
/// so on, and tells the value.
pub proof fn lemma_zigzag_tells_the_value(v: int)
    ensures
        unzigzag(zigzag(v)) == v,
        v >= 0 ==> zigzag(v) == 2 * v,
        v < 0 ==> zigzag(v) == -2 * v - 1,
{
}

} // verus!
