//! Taking values off the front of some bytes.

use vstd::prelude::*;

use crate::encoding::uvarint;

verus! {

/// A varint, and what follows it.
pub fn take_uvarint<'a>(p: &'a [u8]) -> (r: Option<(u64, &'a [u8])>)
    ensures
        match r {
            Some((v, rest)) => crate::encoding::parse_uvarint(p@) == Some((v, rest@)),
            None => crate::encoding::parse_uvarint(p@) is None,
        },
{
    match uvarint(p) {
        None => None,
        Some((v, n)) => {
            let (_, rest) = p.split_at(n);
            assert(rest@ =~= p@.skip(n as int));
            Some((v, rest))
        },
    }
}

/// A length and that many bytes, and what follows them.
pub fn take_prefixed<'a>(p: &'a [u8]) -> (r: Option<(&'a [u8], &'a [u8])>)
    ensures
        match r {
            Some((v, rest)) => crate::edit_codec::parse_bytes(p@) == Some((v@, rest@)),
            None => crate::edit_codec::parse_bytes(p@) is None,
        },
{
    match take_uvarint(p) {
        None => None,
        Some((n, rest)) => {
            if n > rest.len() as u64 {
                return None;
            }
            let (v, more) = rest.split_at(n as usize);
            assert(v@ =~= rest@.take(n as int));
            assert(more@ =~= rest@.skip(n as int));
            Some((v, more))
        },
    }
}

/// `count` varints, and what follows them.
pub fn take_uvarints<'a>(p: &'a [u8], count: u64) -> (r: Option<(Vec<u64>, &'a [u8])>)
    ensures
        match r {
            Some((v, rest)) => crate::edit_codec::parse_ids(p@, count as nat) == Some((v@, rest@)),
            None => crate::edit_codec::parse_ids(p@, count as nat) is None,
        },
{
    let mut cur = p;
    let cap: usize = if count < 4096 { count as usize } else { 4096 };
    let mut out: Vec<u64> = Vec::with_capacity(cap);
    let mut i: u64 = 0;
    proof {
        match crate::edit_codec::parse_ids(p@, count as nat) {
            Some((vs, rest)) => {
                assert(out@ + vs =~= vs);
            },
            None => {},
        }
    }
    while i < count
        invariant
            i <= count,
            crate::edit_codec::parse_ids(p@, count as nat) == (match crate::edit_codec::parse_ids(cur@, (count - i) as nat) {
                Some((vs, rest)) => Some((out@ + vs, rest)),
                None => None::<(Seq<u64>, Seq<u8>)>,
            }),
        decreases count - i,
    {
        let ghost out0 = out@;
        match take_uvarint(cur) {
            None => {
                return None;
            },
            Some((v, rest)) => {
                out.push(v);
                cur = rest;
                i += 1;
                proof {
                    match crate::edit_codec::parse_ids(cur@, (count - i) as nat) {
                        Some((vs, rest)) => {
                            assert(out0 + (seq![v] + vs) =~= out@ + vs);
                        },
                        None => {},
                    }
                }
            },
        }
    }
    assert(out@ + Seq::<u64>::empty() =~= out@);
    Some((out, cur))
}

} // verus!
