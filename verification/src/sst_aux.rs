//! The auxiliary block of a table: a list of tagged sections.
//!
//! ```text
//! section_count | (tag(1) | length | payload) x section_count
//! ```

use vstd::prelude::*;

use crate::encoding::{append_slice, append_uvarint};
use crate::error::OndaError;
use crate::format::Fault;
use crate::reader::{take_prefixed, take_uvarint};
use crate::text::with_number;

verus! {

/// The section that holds range-delete fragments.
pub const AUX_SECTION_RANGE: u8 = 1;
/// The highest tag that is implemented here.
pub const MAX_KNOWN_AUX_SECTION: u8 = 1;

/// `n` sections at the front of `s`, which nothing follows.
pub open spec fn parse_sections(s: Seq<u8>, n: nat) -> Result<Seq<(u8, Seq<u8>)>, Fault>
    decreases n,
{
    if n == 0 {
        if s.len() == 0 { Ok(Seq::empty()) } else { Err(Fault::Corrupt) }
    } else if s.len() == 0 {
        Err(Fault::Corrupt)
    } else if s[0] == 0 || s[0] > MAX_KNOWN_AUX_SECTION {
        Err(Fault::Unsupported)
    } else {
        match crate::edit_codec::parse_bytes(s.skip(1)) {
            None => Err(Fault::Corrupt),
            Some((payload, rest)) => match parse_sections(rest, (n - 1) as nat) {
                Err(f) => Err(f),
                Ok(more) => Ok(seq![(s[0], payload)] + more),
            },
        }
    }
}

/// The sections of an auxiliary block.
pub open spec fn parse_aux(s: Seq<u8>) -> Result<Seq<(u8, Seq<u8>)>, Fault> {
    match crate::encoding::parse_uvarint(s) {
        None => Err(Fault::Corrupt),
        Some((n, rest)) => parse_sections(rest, n as nat),
    }
}

pub open spec fn section_views(v: Seq<(u8, &[u8])>) -> Seq<(u8, Seq<u8>)> {
    v.map_values(|x: (u8, &[u8])| (x.0, x.1@))
}

fn corrupt() -> (r: OndaError)
    ensures
        r is Corruption,
{
    OndaError::Corruption(crate::text::join3("sst: ", "malformed aux block", ""))
}

/// The sections of an auxiliary block. A tag that is not implemented here is
/// refused, not skipped.
pub fn decode_aux_sections(payload: &[u8]) -> (r: Result<Vec<(u8, &[u8])>, OndaError>)
    ensures
        match parse_aux(payload@) {
            Ok(v) => r is Ok && section_views(r->Ok_0@) == v,
            Err(f) => r is Err && crate::format::reports(r->Err_0, f),
        },
{
    let (count, rest) = match take_uvarint(payload) {
        None => {
            return Err(corrupt());
        },
        Some(x) => x,
    };
    let mut p = rest;
    let mut out: Vec<(u8, &[u8])> = Vec::new();
    let mut i: u64 = 0;
    proof {
        if let Ok(v) = parse_sections(p@, count as nat) {
            assert(section_views(out@) + v =~= v);
        }
    }
    while i < count
        invariant
            i <= count,
            parse_aux(payload@) == (match parse_sections(p@, (count - i) as nat) {
                Ok(v) => Ok(section_views(out@) + v),
                Err(f) => Err(f),
            }),
        decreases count - i,
    {
        if p.len() == 0 {
            return Err(corrupt());
        }
        let tag = p[0];
        if tag == 0 || tag > MAX_KNOWN_AUX_SECTION {
            return Err(OndaError::UnsupportedFormat(with_number("sst aux section tag ", tag as u64, " is not implemented")));
        }
        let (_, body) = p.split_at(1);
        assert(body@ =~= p@.skip(1));
        let (section, more) = match take_prefixed(body) {
            None => {
                return Err(corrupt());
            },
            Some(x) => x,
        };
        let ghost o0 = out@;
        out.push((tag, section));
        proof {
            assert(section_views(out@) =~= section_views(o0).push((tag, section@)));
            if let Ok(v) = parse_sections(more@, (count - i - 1) as nat) {
                assert(section_views(o0) + (seq![(tag, section@)] + v) =~= section_views(out@) + v);
            }
        }
        p = more;
        i += 1;
    }
    if p.len() != 0 {
        return Err(corrupt());
    }
    assert(section_views(out@) + Seq::<(u8, Seq<u8>)>::empty() =~= section_views(out@));
    Ok(out)
}

/// The sections of an auxiliary block.
pub fn decode_aux_sections_for_test(payload: &[u8]) -> (r: Result<Vec<(u8, &[u8])>, OndaError>)
    ensures
        match parse_aux(payload@) {
            Ok(v) => r is Ok && section_views(r->Ok_0@) == v,
            Err(f) => r is Err && crate::format::reports(r->Err_0, f),
        },
{
    decode_aux_sections(payload)
}

pub open spec fn section_wire(x: (u8, Seq<u8>)) -> Seq<u8> {
    seq![x.0] + crate::edit_codec::bytes_wire(x.1)
}

pub open spec fn sections_wire(v: Seq<(u8, Seq<u8>)>) -> Seq<u8>
    decreases v.len(),
{
    if v.len() == 0 { Seq::empty() } else { sections_wire(v.drop_last()) + section_wire(v.last()) }
}

/// An auxiliary block as bytes.
pub open spec fn aux_wire(v: Seq<(u8, Seq<u8>)>) -> Seq<u8> {
    crate::encoding::uvarint_bytes(v.len()) + sections_wire(v)
}

pub open spec fn owned_views(v: Seq<(u8, Vec<u8>)>) -> Seq<(u8, Seq<u8>)> {
    v.map_values(|x: (u8, Vec<u8>)| (x.0, x.1@))
}

/// An auxiliary block that holds these sections.
pub fn encode_aux_sections(sections: &Vec<(u8, Vec<u8>)>) -> (r: Vec<u8>)
    ensures
        r@ == aux_wire(owned_views(sections@)),
{
    let ghost v = owned_views(sections@);
    let mut b: Vec<u8> = Vec::new();
    append_uvarint(&mut b, sections.len() as u64);
    proof {
        assert(v.take(0) =~= Seq::empty());
        crate::encoding::lemma_cat_empty(crate::encoding::uvarint_bytes(v.len()));
    }
    let mut i: usize = 0;
    while i < sections.len()
        invariant
            i <= sections@.len(),
            v == owned_views(sections@),
            b@ == crate::encoding::uvarint_bytes(v.len()) + sections_wire(v.take(i as int)),
        decreases sections@.len() - i,
    {
        let ghost b0 = b@;
        let s = &sections[i];
        b.push(s.0);
        append_uvarint(&mut b, s.1.len() as u64);
        append_slice(&mut b, s.1.as_slice());
        proof {
            assert(v[i as int] == (s.0, s.1@));
            assert(v.take(i + 1).drop_last() =~= v.take(i as int));
            assert(v.take(i + 1).last() == v[i as int]);
            assert(b@ =~= b0 + section_wire(v[i as int]));
            crate::encoding::lemma_cat_assoc(
                crate::encoding::uvarint_bytes(v.len()),
                sections_wire(v.take(i as int)),
                section_wire(v[i as int]),
            );
        }
        i += 1;
    }
    assert(v.take(v.len() as int) =~= v);
    b
}

proof fn lemma_sections_front(x: (u8, Seq<u8>), more: Seq<(u8, Seq<u8>)>)
    ensures
        sections_wire(seq![x] + more) == section_wire(x) + sections_wire(more),
    decreases more.len(),
{
    let v = seq![x] + more;
    if more.len() == 0 {
        assert(v.drop_last() =~= Seq::empty());
        assert(v.last() == x);
        assert(sections_wire(v.drop_last()) =~= Seq::empty());
        assert(sections_wire(more) =~= Seq::empty());
        crate::encoding::lemma_cat_empty(section_wire(x));
    } else {
        lemma_sections_front(x, more.drop_last());
        assert(v.drop_last() =~= seq![x] + more.drop_last());
        assert(v.last() == more.last());
        crate::encoding::lemma_cat_assoc(section_wire(x), sections_wire(more.drop_last()), section_wire(more.last()));
    }
}

proof fn lemma_sections_trip(v: Seq<(u8, Seq<u8>)>)
    requires
        forall|i: int| 0 <= i < v.len() ==> 1 <= (#[trigger] v[i]).0 <= MAX_KNOWN_AUX_SECTION && v[i].1.len() <= u64::MAX,
    ensures
        parse_sections(sections_wire(v), v.len()) == Ok::<_, Fault>(v),
    decreases v.len(),
{
    if v.len() == 0 {
        assert(v =~= Seq::empty());
    } else {
        let x = v[0];
        let more = v.skip(1);
        assert(v =~= seq![x] + more);
        assert forall|i: int| 0 <= i < more.len() implies 1 <= (#[trigger] more[i]).0 <= MAX_KNOWN_AUX_SECTION && more[i].1.len() <= u64::MAX by {
            assert(more[i] == v[i + 1]);
        }
        lemma_sections_front(x, more);
        lemma_sections_trip(more);
        let w = sections_wire(more);
        let s = section_wire(x) + w;
        assert(s[0] == x.0);
        assert(s.skip(1) =~= crate::edit_codec::bytes_wire(x.1) + w);
        crate::edit_trip::lemma_bytes_trip(x.1, w);
    }
}

/// An auxiliary block is read back as it was written.
pub proof fn lemma_aux_round_trip(v: Seq<(u8, Seq<u8>)>)
    requires
        v.len() <= u64::MAX,
        forall|i: int| 0 <= i < v.len() ==> 1 <= (#[trigger] v[i]).0 <= MAX_KNOWN_AUX_SECTION && v[i].1.len() <= u64::MAX,
    ensures
        parse_aux(aux_wire(v)) == Ok::<_, Fault>(v),
{
    crate::encoding::lemma_uvarint_round_trip(v.len() as u64, sections_wire(v));
    lemma_sections_trip(v);
}

/// The sections that are accepted are as many as said, each of a known type,
/// with nothing behind them.
pub proof fn lemma_accepted_sections_are_known(s: Seq<u8>, n: nat, v: Seq<(u8, Seq<u8>)>, i: int)
    requires
        parse_sections(s, n) == Ok::<Seq<(u8, Seq<u8>)>, Fault>(v),
    ensures
        v.len() == n,
        0 <= i < v.len() ==> 1 <= v[i].0 <= MAX_KNOWN_AUX_SECTION,
        n == 0 ==> s.len() == 0,
    decreases n,
{
    if n > 0 {
        let (payload, rest) = crate::edit_codec::parse_bytes(s.skip(1)).unwrap();
        let more = parse_sections(rest, (n - 1) as nat)->Ok_0;
        lemma_accepted_sections_are_known(rest, (n - 1) as nat, more, i - 1);
        assert(v =~= seq![(s[0], payload)] + more);
        if 0 < i < v.len() {
            assert(v[i] == more[i - 1]);
        }
    }
}

} // verus!
