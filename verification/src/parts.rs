//! Parts: the tables of one partition at the bottom level, and what becomes of
//! them when a part is exported, detached, attached, frozen or moved.

use vstd::prelude::*;
use vstd::string::StringExecFns;

use crate::comparator::{compare_bytes, Comparator};
use crate::db::{ColumnFamily, DB};
use crate::encoding::{append_slice, append_u64_be, copy_bytes};
use crate::error::OndaError;
use crate::manifest::{CfManifest, Manifest, SstMeta, WalLayout};
use crate::storage::sha256_of;
use crate::text::{copy_opt_string, str_eq};

verus! {

// ---------------------------------------------------------------------------
// What a part is
// ---------------------------------------------------------------------------

/// One table of an exported part.
#[derive(Debug, Clone, PartialEq, Eq)]
pub struct PartTable {
    /// Its number in the database it was exported from; no identity.
    pub id: u64,
    pub min_key: Vec<u8>,
    pub max_key: Vec<u8>,
    pub max_seq: u64,
    pub num_entries: u64,
    pub klog_size: u64,
    pub vlog_size: u64,
    /// The tier it lies on; none for the default.
    pub tier: Option<String>,
    /// Its name on a shared tier.
    pub object: Option<String>,
    /// The SHA-256 digest of its key log and its value log.
    pub content: [u8; 32],
}

/// A part, described so that another database can recognise it.
#[derive(Debug, Clone, PartialEq, Eq)]
pub struct PartManifest {
    pub cf: String,
    pub partition: String,
    /// By smallest key, then by number.
    pub tables: Vec<PartTable>,
    /// The SHA-256 digest of what identifies the tables.
    pub digest: [u8; 32],
}

/// What identifies a table: everything but its number and where it lies.
#[verifier::ext_equal]
pub struct Identity {
    pub content: Seq<u8>,
    pub max_seq: u64,
    pub num_entries: u64,
    pub klog_size: u64,
    pub vlog_size: u64,
    pub min_key: Seq<u8>,
    pub max_key: Seq<u8>,
}

impl PartTable {
    pub open spec fn identity(self) -> Identity {
        Identity {
            content: self.content@,
            max_seq: self.max_seq,
            num_entries: self.num_entries,
            klog_size: self.klog_size,
            vlog_size: self.vlog_size,
            min_key: self.min_key@,
            max_key: self.max_key@,
        }
    }
}

/// What a part's description says of a table.
#[verifier::ext_equal]
pub struct PartTableView {
    pub id: u64,
    pub identity: Identity,
    pub tier: Option<Seq<char>>,
    pub object: Option<Seq<char>>,
}

impl View for PartTable {
    type V = PartTableView;

    open spec fn view(&self) -> PartTableView {
        PartTableView {
            id: self.id,
            identity: self.identity(),
            tier: crate::text::opt_text(self.tier),
            object: crate::text::opt_text(self.object),
        }
    }
}

pub open spec fn table_views(v: Seq<PartTable>) -> Seq<PartTableView> {
    v.map_values(|t: PartTable| t@)
}

pub open spec fn identities(v: Seq<PartTable>) -> Seq<Identity> {
    v.map_values(|t: PartTable| t.identity())
}

/// What the canonical form of a part starts with.
pub const PART_TAG: [u8; 14] = [0x6F, 0x6E, 0x64, 0x61, 0x64, 0x62, 0x2F, 0x70, 0x61, 0x72, 0x74, 0x2F, 0x76, 0x31];

pub open spec fn be8(v: nat) -> Seq<u8> {
    crate::encoding::be_bytes(v, 8)
}

pub open spec fn key_wire(k: Seq<u8>) -> Seq<u8> {
    be8(k.len()) + k
}

pub open spec fn identity_wire(t: Identity) -> Seq<u8> {
    t.content + (be8(t.max_seq as nat) + (be8(t.num_entries as nat) + (be8(t.klog_size as nat) + (be8(t.vlog_size as nat) + (key_wire(t.min_key)
        + key_wire(t.max_key))))))
}

pub open spec fn identities_wire(v: Seq<Identity>) -> Seq<u8>
    decreases v.len(),
{
    if v.len() == 0 { Seq::empty() } else { identities_wire(v.drop_last()) + identity_wire(v.last()) }
}

/// The canonical form of a part.
pub open spec fn part_wire(v: Seq<Identity>) -> Seq<u8> {
    PART_TAG@ + (be8(v.len()) + identities_wire(v))
}

fn append_identity(b: &mut Vec<u8>, t: &PartTable)
    ensures
        final(b)@ == old(b)@ + identity_wire(t.identity()),
{
    let ghost b0 = b@;
    append_slice(b, t.content.as_slice());
    append_u64_be(b, t.max_seq);
    append_u64_be(b, t.num_entries);
    append_u64_be(b, t.klog_size);
    append_u64_be(b, t.vlog_size);
    append_u64_be(b, t.min_key.len() as u64);
    append_slice(b, t.min_key.as_slice());
    append_u64_be(b, t.max_key.len() as u64);
    append_slice(b, t.max_key.as_slice());
    assert(b@ =~= b0 + identity_wire(t.identity()));
}

/// The digest of a part: SHA-256 over the canonical form of its tables.
pub fn part_digest(tables: &Vec<PartTable>) -> (r: [u8; 32])
    ensures
        r@ == crate::storage::sha256(part_wire(identities(tables@))),
{
    let ghost v = identities(tables@);
    let mut b: Vec<u8> = Vec::new();
    append_slice(&mut b, PART_TAG.as_slice());
    append_u64_be(&mut b, tables.len() as u64);
    let ghost b0 = b@;
    let mut i: usize = 0;
    proof {
        assert(v.take(0) =~= Seq::empty());
        crate::encoding::lemma_cat_empty(b0);
    }
    while i < tables.len()
        invariant
            i <= tables@.len(),
            v == identities(tables@),
            b@ == b0 + identities_wire(v.take(i as int)),
        decreases tables@.len() - i,
    {
        append_identity(&mut b, &tables[i]);
        proof {
            let part = v.take(i + 1);
            assert(part.drop_last() =~= v.take(i as int));
            assert(part.last() == tables@[i as int].identity());
            crate::encoding::lemma_cat_assoc(b0, identities_wire(part.drop_last()), identity_wire(part.last()));
        }
        i += 1;
    }
    proof {
        assert(v.take(v.len() as int) =~= v);
        assert(b@ =~= part_wire(v));
    }
    sha256_of(b.as_slice())
}

/// The digest of a table: SHA-256 over its key log and then its value log.
pub fn table_content(klog: &[u8], vlog: &[u8]) -> (r: [u8; 32])
    ensures
        r@ == crate::storage::sha256(klog@ + vlog@),
{
    let mut b = copy_bytes(klog);
    append_slice(&mut b, vlog);
    sha256_of(b.as_slice())
}

/// The bytes that some tables take.
pub open spec fn total_size(v: Seq<PartTable>) -> int
    decreases v.len(),
{
    if v.len() == 0 { 0 } else { total_size(v.drop_last()) + v.last().klog_size + v.last().vlog_size }
}

proof fn lemma_size_grows(v: Seq<PartTable>, i: int)
    requires
        0 <= i <= v.len(),
    ensures
        0 <= total_size(v.take(i)) <= total_size(v),
    decreases v.len() - i,
{
    if i < v.len() {
        lemma_size_grows(v, i + 1);
        assert(v.take(i + 1).drop_last() =~= v.take(i));
        lemma_size_positive(v.take(i));
    } else {
        assert(v.take(i) =~= v);
        lemma_size_positive(v);
    }
}

proof fn lemma_size_positive(v: Seq<PartTable>)
    ensures
        total_size(v) >= 0,
    decreases v.len(),
{
    if v.len() > 0 {
        lemma_size_positive(v.drop_last());
    }
}

pub open spec fn hex_of(s: Seq<u8>) -> Seq<char>
    decreases s.len(),
{
    if s.len() == 0 { Seq::empty() } else { hex_of(s.drop_last()) + crate::text::hex_text(s.last() as nat, 2) }
}

impl PartManifest {
    /// The bytes that the part takes.
    pub fn size_bytes(&self) -> (r: u64)
        requires
            total_size(self.tables@) <= u64::MAX,
        ensures
            r == total_size(self.tables@),
    {
        let mut n: u64 = 0;
        let mut i: usize = 0;
        assert(self.tables@.take(0) =~= Seq::empty());
        while i < self.tables.len()
            invariant
                i <= self.tables@.len(),
                n == total_size(self.tables@.take(i as int)),
                total_size(self.tables@) <= u64::MAX,
            decreases self.tables@.len() - i,
        {
            proof {
                lemma_size_grows(self.tables@, i + 1);
                let t = self.tables@.take(i + 1);
                assert(t.drop_last() =~= self.tables@.take(i as int));
                assert(t.last() == self.tables@[i as int]);
            }
            n = n + self.tables[i].klog_size + self.tables[i].vlog_size;
            i += 1;
        }
        assert(self.tables@.take(self.tables@.len() as int) =~= self.tables@);
        n
    }

    /// The digest in lower-case hexadecimal digits.
    pub fn digest_hex(&self) -> (r: String)
        ensures
            r@ == hex_of(self.digest@),
    {
        let mut s = String::from_str("");
        proof {
            reveal_strlit("");
        }
        let mut i: usize = 0;
        assert(self.digest@.take(0) =~= Seq::empty());
        assert(s@ =~= hex_of(self.digest@.take(0)));
        while i < 32
            invariant
                i <= 32,
                self.digest@.len() == 32,
                s@ == hex_of(self.digest@.take(i as int)),
            decreases 32 - i,
        {
            s.append(crate::text::hex(self.digest[i] as u64, 2).as_str());
            proof {
                let t = self.digest@.take(i + 1);
                assert(t.drop_last() =~= self.digest@.take(i as int));
                assert(t.last() == self.digest@[i as int]);
            }
            i += 1;
        }
        assert(self.digest@.take(32) =~= self.digest@);
        s
    }
}

// ---------------------------------------------------------------------------
// The canonical form tells parts apart
// ---------------------------------------------------------------------------

proof fn lemma_cut_equal(a: Seq<u8>, b: Seq<u8>, c: Seq<u8>, d: Seq<u8>)
    requires
        a + b == c + d,
        a.len() == c.len(),
    ensures
        a == c,
        b == d,
{
    assert((a + b).take(a.len() as int) =~= a);
    assert((c + d).take(a.len() as int) =~= c);
    assert((a + b).skip(a.len() as int) =~= b);
    assert((c + d).skip(a.len() as int) =~= d);
}

proof fn lemma_be8(v: u64)
    ensures
        be8(v as nat).len() == 8,
        crate::encoding::be_value(be8(v as nat)) == v,
{
    crate::encoding::lemma_pow256();
    crate::encoding::lemma_be_round_trip(v as nat, 8);
}

proof fn lemma_number_front(a: u64, b: u64, x: Seq<u8>, y: Seq<u8>)
    requires
        be8(a as nat) + x == be8(b as nat) + y,
    ensures
        a == b,
        x == y,
{
    lemma_be8(a);
    lemma_be8(b);
    lemma_cut_equal(be8(a as nat), x, be8(b as nat), y);
}

proof fn lemma_key_front(a: Seq<u8>, b: Seq<u8>, x: Seq<u8>, y: Seq<u8>)
    requires
        key_wire(a) + x == key_wire(b) + y,
        a.len() <= u64::MAX,
        b.len() <= u64::MAX,
    ensures
        a == b,
        x == y,
{
    assert(key_wire(a) + x =~= be8(a.len()) + (a + x));
    assert(key_wire(b) + y =~= be8(b.len()) + (b + y));
    lemma_number_front(a.len() as u64, b.len() as u64, a + x, b + y);
    lemma_cut_equal(a, x, b, y);
}

/// Whether a table can be part of a canonical form.
pub open spec fn identity_fits(t: Identity) -> bool {
    t.content.len() == 32 && t.min_key.len() <= u64::MAX && t.max_key.len() <= u64::MAX
}

proof fn lemma_identity_front(a: Identity, b: Identity, x: Seq<u8>, y: Seq<u8>)
    requires
        identity_fits(a),
        identity_fits(b),
        identity_wire(a) + x == identity_wire(b) + y,
    ensures
        a == b,
        x == y,
{
    let k1 = key_wire(a.min_key) + (key_wire(a.max_key) + x);
    let k2 = key_wire(b.min_key) + (key_wire(b.max_key) + y);
    let v1 = be8(a.vlog_size as nat) + k1;
    let v2 = be8(b.vlog_size as nat) + k2;
    let l1 = be8(a.klog_size as nat) + v1;
    let l2 = be8(b.klog_size as nat) + v2;
    let n1 = be8(a.num_entries as nat) + l1;
    let n2 = be8(b.num_entries as nat) + l2;
    let s1 = be8(a.max_seq as nat) + n1;
    let s2 = be8(b.max_seq as nat) + n2;
    assert(identity_wire(a) + x =~= a.content + s1);
    assert(identity_wire(b) + y =~= b.content + s2);
    lemma_cut_equal(a.content, s1, b.content, s2);
    lemma_number_front(a.max_seq, b.max_seq, n1, n2);
    lemma_number_front(a.num_entries, b.num_entries, l1, l2);
    lemma_number_front(a.klog_size, b.klog_size, v1, v2);
    lemma_number_front(a.vlog_size, b.vlog_size, k1, k2);
    lemma_key_front(a.min_key, b.min_key, key_wire(a.max_key) + x, key_wire(b.max_key) + y);
    lemma_key_front(a.max_key, b.max_key, x, y);
}

proof fn lemma_wire_front(t: Identity, more: Seq<Identity>)
    ensures
        identities_wire(seq![t] + more) == identity_wire(t) + identities_wire(more),
    decreases more.len(),
{
    let v = seq![t] + more;
    if more.len() == 0 {
        assert(v.drop_last() =~= Seq::empty());
        assert(v.last() == t);
        assert(identities_wire(v.drop_last()) =~= Seq::empty());
        assert(identities_wire(more) =~= Seq::empty());
        crate::encoding::lemma_cat_empty(identity_wire(t));
    } else {
        lemma_wire_front(t, more.drop_last());
        assert(v.drop_last() =~= seq![t] + more.drop_last());
        assert(v.last() == more.last());
        crate::encoding::lemma_cat_assoc(identity_wire(t), identities_wire(more.drop_last()), identity_wire(more.last()));
    }
}

proof fn lemma_wires_differ(a: Seq<Identity>, b: Seq<Identity>)
    requires
        a.len() == b.len(),
        forall|i: int| 0 <= i < a.len() ==> identity_fits(#[trigger] a[i]),
        forall|i: int| 0 <= i < b.len() ==> identity_fits(#[trigger] b[i]),
        identities_wire(a) == identities_wire(b),
    ensures
        a == b,
    decreases a.len(),
{
    if a.len() > 0 {
        let x = a.skip(1);
        let y = b.skip(1);
        assert(a =~= seq![a[0]] + x);
        assert(b =~= seq![b[0]] + y);
        lemma_wire_front(a[0], x);
        lemma_wire_front(b[0], y);
        lemma_identity_front(a[0], b[0], identities_wire(x), identities_wire(y));
        assert forall|i: int| 0 <= i < x.len() implies identity_fits(#[trigger] x[i]) by {
            assert(x[i] == a[i + 1]);
        }
        assert forall|i: int| 0 <= i < y.len() implies identity_fits(#[trigger] y[i]) by {
            assert(y[i] == b[i + 1]);
        }
        lemma_wires_differ(x, y);
    }
    assert(a =~= b);
}

/// Two parts with the same canonical form have the same tables: no two lists of
/// tables are confused by where one field ends and the next begins.
pub proof fn lemma_canonical_form_is_faithful(a: Seq<Identity>, b: Seq<Identity>)
    requires
        a.len() <= u64::MAX,
        b.len() <= u64::MAX,
        forall|i: int| 0 <= i < a.len() ==> identity_fits(#[trigger] a[i]),
        forall|i: int| 0 <= i < b.len() ==> identity_fits(#[trigger] b[i]),
        part_wire(a) == part_wire(b),
    ensures
        a == b,
{
    lemma_cut_equal(PART_TAG@, be8(a.len()) + identities_wire(a), PART_TAG@, be8(b.len()) + identities_wire(b));
    lemma_number_front(a.len() as u64, b.len() as u64, identities_wire(a), identities_wire(b));
    lemma_wires_differ(a, b);
}

// ---------------------------------------------------------------------------
// Exporting a part
// ---------------------------------------------------------------------------

/// Whether `a` stands before `b` in the description of a part: by smallest key,
/// then by number.
pub open spec fn listed_before(a: PartTableView, b: PartTableView) -> bool {
    let (x, y) = (a.identity.min_key, b.identity.min_key);
    !crate::comparator::bytes_le(y, x) || (x == y && a.id < b.id)
}

/// Whether no table stands before one that comes first.
pub open spec fn in_list_order(v: Seq<PartTableView>) -> bool {
    forall|i: int, j: int| 0 <= i < j < v.len() ==> !listed_before(#[trigger] v[j], #[trigger] v[i])
}

proof fn lemma_listing(a: PartTableView, b: PartTableView, c: PartTableView)
    ensures
        listed_before(a, b) ==> !listed_before(b, a),
        !listed_before(b, a) && !listed_before(c, b) ==> !listed_before(c, a),
{
    let (x, y, z) = (a.identity.min_key, b.identity.min_key, c.identity.min_key);
    crate::comparator::lemma_bytes_total(x, y);
    crate::comparator::lemma_bytes_total(y, z);
    crate::comparator::lemma_bytes_total(x, z);
    crate::comparator::lemma_bytes_total(x, x);
    if crate::comparator::bytes_le(x, y) && crate::comparator::bytes_le(y, z) {
        crate::comparator::lemma_bytes_transitive(x, y, z);
    }
    if crate::comparator::bytes_le(x, y) && crate::comparator::bytes_le(y, x) {
        crate::comparator::lemma_bytes_antisymmetric(x, y);
    }
    if crate::comparator::bytes_le(y, z) && crate::comparator::bytes_le(z, y) {
        crate::comparator::lemma_bytes_antisymmetric(y, z);
    }
    if crate::comparator::bytes_le(x, z) && crate::comparator::bytes_le(z, x) {
        crate::comparator::lemma_bytes_antisymmetric(x, z);
    }
}

fn comes_before(a: &PartTable, b: &PartTable) -> (r: bool)
    ensures
        r == listed_before(a@, b@),
{
    let o = compare_bytes(a.min_key.as_slice(), b.min_key.as_slice());
    proof {
        crate::comparator::lemma_bytes_total(a.min_key@, b.min_key@);
        crate::comparator::lemma_bytes_total(a.min_key@, a.min_key@);
        if o is Equal {
            crate::comparator::lemma_bytes_antisymmetric(a.min_key@, b.min_key@);
        }
    }
    o.is_lt() || (o.is_eq() && a.id < b.id)
}

fn sort_tables(tables: Vec<PartTable>) -> (r: Vec<PartTable>)
    ensures
        in_list_order(table_views(r@)),
        table_views(r@).to_multiset() == table_views(tables@).to_multiset(),
{
    let mut rest = tables;
    let mut out: Vec<PartTable> = Vec::new();
    let ghost all = table_views(tables@);
    proof {
        assert(table_views(out@) =~= Seq::empty());
        Seq::<PartTableView>::empty().to_multiset_ensures();
        assert(table_views(out@).to_multiset().add(table_views(rest@).to_multiset()) =~= all.to_multiset());
    }
    while rest.len() > 0
        invariant
            in_list_order(table_views(out@)),
            table_views(out@).to_multiset().add(table_views(rest@).to_multiset()) =~= all.to_multiset(),
        decreases rest@.len(),
    {
        let ghost r0 = table_views(rest@);
        let ghost o0 = table_views(out@);
        let x = match rest.pop() {
            Some(x) => x,
            None => {
                return out;
            },
        };
        let ghost xv = x@;
        let mut i: usize = out.len();
        while i > 0 && comes_before(&x, &out[i - 1])
            invariant
                i <= out@.len(),
                table_views(out@) == o0,
                xv == x@,
                forall|k: int| i <= k < o0.len() ==> listed_before(xv, #[trigger] o0[k]),
            decreases i,
        {
            assert(o0[i - 1] == out@[i - 1]@);
            i -= 1;
        }
        proof {
            if i > 0 {
                assert(o0[i - 1] == out@[i - 1]@);
            }
            assert forall|k: int| 0 <= k < i implies !listed_before(xv, #[trigger] o0[k]) by {
                if k < i - 1 {
                    lemma_listing(o0[k], o0[i - 1], xv);
                }
            }
            assert forall|k: int| i <= k < o0.len() implies !listed_before(#[trigger] o0[k], xv) by {
                lemma_listing(xv, o0[k], xv);
            }
        }
        out.insert(i, x);
        proof {
            assert(table_views(out@) =~= o0.insert(i as int, xv));
            assert(r0 =~= table_views(rest@).push(xv));
            table_views(rest@).to_multiset_ensures();
            o0.to_multiset_ensures();
            vstd::seq_lib::to_multiset_insert(o0, i as int, xv);
            assert(r0.to_multiset() =~= table_views(rest@).to_multiset().insert(xv));
        }
    }
    proof {
        assert(table_views(rest@) =~= Seq::empty());
        Seq::<PartTableView>::empty().to_multiset_ensures();
        assert(table_views(out@).to_multiset().add(table_views(rest@).to_multiset()) =~= table_views(out@).to_multiset());
    }
    out
}

/// The description of a part does not depend on the order in which its tables
/// were found, where no two have both the same smallest key and the same
/// number.
pub proof fn lemma_listing_is_canonical(a: Seq<PartTableView>, b: Seq<PartTableView>)
    requires
        in_list_order(a),
        in_list_order(b),
        a.to_multiset() == b.to_multiset(),
        forall|i: int, j: int|
            0 <= i < j < a.len() ==> !((#[trigger] a[i]).identity.min_key == (#[trigger] a[j]).identity.min_key && a[i].id == a[j].id),
    ensures
        a == b,
    decreases a.len(),
{
    a.to_multiset_ensures();
    b.to_multiset_ensures();
    if a.len() > 0 {
        let x = a.last();
        let y = b.last();
        assert(a.contains(x));
        assert(b.contains(y));
        assert(b.to_multiset().count(x) > 0);
        assert(a.to_multiset().count(y) > 0);
        let i = choose|i: int| 0 <= i < b.len() && b[i] == x;
        let j = choose|j: int| 0 <= j < a.len() && a[j] == y;
        let n = a.len() - 1;
        if j < n {
            assert(!listed_before(a[n], a[j]));
            if i < b.len() - 1 {
                assert(!listed_before(b[b.len() - 1], b[i]));
            }
            lemma_alike(x, y);
            assert(a[j].identity.min_key == a[n].identity.min_key && a[j].id == a[n].id);
        }
        assert(x == y);
        let p = a.drop_last();
        let q = b.drop_last();
        assert(p =~= a.remove(a.len() - 1));
        assert(q =~= b.remove(b.len() - 1));
        assert forall|i: int, j: int| 0 <= i < j < p.len() implies !listed_before(#[trigger] p[j], #[trigger] p[i]) by {
            assert(p[i] == a[i] && p[j] == a[j]);
        }
        assert forall|i: int, j: int| 0 <= i < j < q.len() implies !listed_before(#[trigger] q[j], #[trigger] q[i]) by {
            assert(q[i] == b[i] && q[j] == b[j]);
        }
        assert forall|i: int, j: int| 0 <= i < j < p.len() implies !((#[trigger] p[i]).identity.min_key == (#[trigger] p[j]).identity.min_key && p[i].id
            == p[j].id) by {
            assert(p[i] == a[i] && p[j] == a[j]);
        }
        lemma_listing_is_canonical(p, q);
        assert(a =~= p.push(x));
        assert(b =~= q.push(y));
    } else {
        assert(a =~= b);
    }
}

/// Two tables of which neither stands before the other have the same smallest
/// key and the same number.
proof fn lemma_alike(a: PartTableView, b: PartTableView)
    requires
        !listed_before(a, b),
        !listed_before(b, a),
    ensures
        a.identity.min_key == b.identity.min_key,
        a.id == b.id,
{
    crate::comparator::lemma_bytes_total(a.identity.min_key, b.identity.min_key);
    crate::comparator::lemma_bytes_antisymmetric(a.identity.min_key, b.identity.min_key);
}

/// The description of a table, given the digest of its bytes.
pub open spec fn described(t: crate::manifest::SstMetaView, content: Seq<u8>) -> PartTableView {
    PartTableView {
        id: t.id,
        identity: Identity {
            content,
            max_seq: t.max_seq,
            num_entries: t.num_entries,
            klog_size: t.klog_size,
            vlog_size: t.vlog_size,
            min_key: t.min_key,
            max_key: t.max_key,
        },
        tier: t.tier,
        object: t.object,
    }
}

/// The descriptions of some tables, given the digests of their bytes.
pub open spec fn all_described(v: Seq<crate::manifest::SstMetaView>, contents: Seq<[u8; 32]>) -> Seq<PartTableView> {
    Seq::new(v.len(), |i: int| described(v[i], contents[i]@))
}

impl PartTable {
    /// The description of a table, given the digest of its bytes.
    pub fn describe(meta: &SstMeta, content: [u8; 32]) -> (r: PartTable)
        ensures
            r@ == described(meta@, content@),
    {
        PartTable {
            id: meta.id,
            min_key: copy_bytes(meta.min_key.as_slice()),
            max_key: copy_bytes(meta.max_key.as_slice()),
            max_seq: meta.max_seq,
            num_entries: meta.num_entries,
            klog_size: meta.klog_size,
            vlog_size: meta.vlog_size,
            tier: copy_opt_string(&meta.tier),
            object: copy_opt_string(&meta.object),
            content,
        }
    }
}

impl DB {
    /// Describe a part, given the digests of its tables in their order. One
    /// without tables is not found.
    pub fn export_part<C: Comparator>(&self, cf: &ColumnFamily<C>, partition: &str, contents: &Vec<[u8; 32]>) -> (r: Result<
        PartManifest,
        OndaError,
    >)
        requires
            contents@.len() == partition_tables(cf.tables(), partition@).len(),
        ensures
            self.poisoned ==> r is Err && r->Err_0 is Poisoned,
            !self.poisoned && contents@.len() == 0 ==> r is Err && r->Err_0 is NotFound,
            !self.poisoned && contents@.len() > 0 ==> (r matches Ok(p) && {
                &&& p.cf@ == cf.name@
                &&& p.partition@ == partition@
                &&& in_list_order(table_views(p.tables@))
                &&& table_views(p.tables@).to_multiset() == all_described(partition_tables(cf.tables(), partition@), contents@).to_multiset()
                &&& p.digest@ == crate::storage::sha256(part_wire(identities(p.tables@)))
            }),
    {
        self.check_usable()?;
        let part = cf.partition_tables(partition);
        if part.len() == 0 {
            return Err(OndaError::NotFound);
        }
        let ghost v = partition_tables(cf.tables(), partition@);
        let mut tables: Vec<PartTable> = Vec::new();
        let mut i: usize = 0;
        while i < part.len()
            invariant
                i <= part@.len(),
                v == crate::manifest::sst_views(part@),
                contents@.len() == v.len(),
                tables@.len() == i,
                forall|k: int| 0 <= k < i ==> (#[trigger] tables@[k])@ == described(v[k], contents@[k]@),
            decreases part@.len() - i,
        {
            assert(v[i as int] == part@[i as int]@);
            tables.push(PartTable::describe(&part[i], contents[i]));
            i += 1;
        }
        assert(table_views(tables@) =~= all_described(v, contents@));
        let sorted = sort_tables(tables);
        let digest = part_digest(&sorted);
        let name = cf.name.clone();
        Ok(PartManifest { cf: name, partition: String::from_str(partition), tables: sorted, digest })
    }
}

// ---------------------------------------------------------------------------
// The tables of a partition
// ---------------------------------------------------------------------------

/// Whether a table is one of a partition.
pub open spec fn of_partition(t: crate::manifest::SstMetaView, partition: Seq<char>) -> bool {
    t.partition == Some(partition)
}

/// The tables of a partition, in their order.
pub open spec fn partition_tables(v: Seq<crate::manifest::SstMetaView>, partition: Seq<char>) -> Seq<crate::manifest::SstMetaView>
    decreases v.len(),
{
    if v.len() == 0 {
        Seq::empty()
    } else {
        let front = partition_tables(v.drop_last(), partition);
        if of_partition(v.last(), partition) { front.push(v.last()) } else { front }
    }
}

/// The tables of every other partition, in their order.
pub open spec fn other_tables(v: Seq<crate::manifest::SstMetaView>, partition: Seq<char>) -> Seq<crate::manifest::SstMetaView>
    decreases v.len(),
{
    if v.len() == 0 {
        Seq::empty()
    } else {
        let front = other_tables(v.drop_last(), partition);
        if of_partition(v.last(), partition) { front } else { front.push(v.last()) }
    }
}

pub open spec fn is_some_text(t: Option<Seq<char>>, s: Seq<char>) -> bool {
    t == Some(s)
}

fn is_named(t: &Option<String>, name: &str) -> (r: bool)
    ensures
        r == is_some_text(crate::text::opt_text(*t), name@),
{
    match t {
        None => false,
        Some(s) => str_eq(s.as_str(), name),
    }
}

impl<C: Comparator> ColumnFamily<C> {
    pub open spec fn tables(&self) -> Seq<crate::manifest::SstMetaView> {
        crate::manifest::sst_views(self.bottom@)
    }

    /// The tables of a partition at the bottom level.
    pub fn partition_tables(&self, partition: &str) -> (r: Vec<SstMeta>)
        ensures
            crate::manifest::sst_views(r@) == partition_tables(self.tables(), partition@),
    {
        let ghost v = self.tables();
        let mut out: Vec<SstMeta> = Vec::new();
        let mut i: usize = 0;
        assert(v.take(0) =~= Seq::empty());
        assert(crate::manifest::sst_views(out@) =~= Seq::empty());
        while i < self.bottom.len()
            invariant
                i <= self.bottom@.len(),
                v == crate::manifest::sst_views(self.bottom@),
                crate::manifest::sst_views(out@) == partition_tables(v.take(i as int), partition@),
            decreases self.bottom@.len() - i,
        {
            let ghost t = v.take(i + 1);
            assert(t.drop_last() =~= v.take(i as int));
            assert(t.last() == self.bottom@[i as int]@);
            if is_named(&self.bottom[i].partition, partition) {
                let ghost o0 = out@;
                let m = self.bottom[i].duplicate();
                out.push(m);
                assert(crate::manifest::sst_views(out@) =~= crate::manifest::sst_views(o0).push(m@));
            }
            i += 1;
        }
        assert(v.take(v.len() as int) =~= v);
        out
    }
}

/// The table that stands on a shared tier, where one does.
pub open spec fn any_shared(v: Seq<crate::manifest::SstMetaView>, tiers: Seq<crate::db::TierDef>) -> bool {
    exists|i: int| 0 <= i < v.len() && on_shared(#[trigger] v[i], tiers)
}

/// Whether a table stands on a shared tier.
pub open spec fn on_shared(t: crate::manifest::SstMetaView, tiers: Seq<crate::db::TierDef>) -> bool {
    t.tier matches Some(n) && crate::db::is_shared_tier(tiers, n)
}

impl DB {
    fn stands_on_shared(&self, t: &SstMeta) -> (r: bool)
        ensures
            r == on_shared(t@, self.tiers@),
    {
        match &t.tier {
            None => false,
            Some(n) => self.tier_is_shared(n.as_str()),
        }
    }

    /// Refuse tables that stand on a shared tier, which other databases may
    /// refer to.
    fn refuse_shared(&self, tables: &Vec<SstMeta>) -> (r: Result<(), OndaError>)
        ensures
            r is Ok <==> !any_shared(crate::manifest::sst_views(tables@), self.tiers@),
            r is Err ==> r->Err_0 is InvalidArgs,
    {
        let ghost v = crate::manifest::sst_views(tables@);
        let mut i: usize = 0;
        while i < tables.len()
            invariant
                i <= tables@.len(),
                v == crate::manifest::sst_views(tables@),
                forall|k: int| 0 <= k < i ==> !on_shared(#[trigger] v[k], self.tiers@),
            decreases tables@.len() - i,
        {
            assert(v[i as int] == tables@[i as int]@);
            if self.stands_on_shared(&tables[i]) {
                return Err(
                    OndaError::InvalidArgs(
                        crate::text::with_number("table id ", tables[i].id, " is on a shared tier: shared publications cannot be detached or frozen"),
                    ),
                );
            }
            i += 1;
        }
        Ok(())
    }

    /// Take a part out of the catalog: the tables that it was made of. One
    /// without tables is not found, and one on a shared tier stays.
    pub fn detach_part<C: Comparator>(&self, cf: &mut ColumnFamily<C>, partition: &str) -> (r: Result<Vec<SstMeta>, OndaError>)
        ensures
            ({
                let part = partition_tables(old(cf).tables(), partition@);
                &&& self.read_only ==> r is Err && r->Err_0 is ReadOnly
                &&& !self.read_only && self.poisoned ==> r is Err && r->Err_0 is Poisoned
                &&& !self.read_only && !self.poisoned && part.len() == 0 ==> r is Err && r->Err_0 is NotFound
                &&& !self.read_only && !self.poisoned && part.len() > 0 && any_shared(part, self.tiers@) ==> r is Err && r->Err_0 is InvalidArgs
                &&& !self.read_only && !self.poisoned && part.len() > 0 && !any_shared(part, self.tiers@) ==> {
                    &&& r matches Ok(t) && crate::manifest::sst_views(t@) == part
                    &&& final(cf).tables() == other_tables(old(cf).tables(), partition@)
                }
            }),
            r is Err ==> *final(cf) == *old(cf),
            *final(cf) == (ColumnFamily { bottom: final(cf).bottom, ..*old(cf) }),
    {
        self.check_writable()?;
        let part = cf.partition_tables(partition);
        if part.len() == 0 {
            return Err(OndaError::NotFound);
        }
        self.refuse_shared(&part)?;
        let ghost v = cf.tables();
        let mut keep: Vec<SstMeta> = Vec::new();
        let mut i: usize = 0;
        assert(v.take(0) =~= Seq::empty());
        assert(crate::manifest::sst_views(keep@) =~= Seq::empty());
        while i < cf.bottom.len()
            invariant
                i <= cf.bottom@.len(),
                v == crate::manifest::sst_views(cf.bottom@),
                *cf == *old(cf),
                crate::manifest::sst_views(keep@) == other_tables(v.take(i as int), partition@),
            decreases cf.bottom@.len() - i,
        {
            let ghost t = v.take(i + 1);
            assert(t.drop_last() =~= v.take(i as int));
            assert(t.last() == cf.bottom@[i as int]@);
            if !is_named(&cf.bottom[i].partition, partition) {
                let ghost k0 = keep@;
                let m = cf.bottom[i].duplicate();
                keep.push(m);
                assert(crate::manifest::sst_views(keep@) =~= crate::manifest::sst_views(k0).push(m@));
            }
            i += 1;
        }
        assert(v.take(v.len() as int) =~= v);
        cf.bottom = keep;
        Ok(part)
    }

    /// The catalog of a database that holds a frozen part alone. Its tables lie
    /// on no named tier.
    pub fn freeze_part<C: Comparator>(&self, cf: &ColumnFamily<C>, partition: &str, config: Vec<u8>) -> (r: Result<Manifest, OndaError>)
        requires
            !self.poisoned && !any_shared(partition_tables(cf.tables(), partition@), self.tiers@) ==> forall|i: int|
                0 <= i < partition_tables(cf.tables(), partition@).len() ==> (#[trigger] partition_tables(cf.tables(), partition@)[i]).id < u64::MAX,
        ensures
            ({
                let part = partition_tables(cf.tables(), partition@);
                &&& self.poisoned ==> r is Err && r->Err_0 is Poisoned
                &&& !self.poisoned && part.len() == 0 ==> r is Err && r->Err_0 is NotFound
                &&& !self.poisoned && part.len() > 0 && any_shared(part, self.tiers@) ==> r is Err && r->Err_0 is InvalidArgs
                &&& !self.poisoned && part.len() > 0 && !any_shared(part, self.tiers@) ==> (r matches Ok(m) && {
                    &&& m@ == (crate::manifest::ManifestView {
                        next_file_id: m.next_file_id,
                        global_seq: self.visible_seq,
                        wal_layout: if self.unified_memtable { WalLayout::Unified } else { WalLayout::PerColumnFamily },
                        instance_nonce: None,
                        caps: self.caps,
                        generation: 0,
                        applied_through: 0,
                        next_edit_id: 0,
                        cfs: seq![
                            crate::manifest::CfView {
                                name: cf.name@,
                                config: config@,
                                sstables: off_tiers(part),
                                unified_id: None,
                            },
                        ],
                    })
                    &&& past_ids(part, m.next_file_id)
                })
            }),
    {
        self.check_usable()?;
        let part = cf.partition_tables(partition);
        if part.len() == 0 {
            return Err(OndaError::NotFound);
        }
        self.refuse_shared(&part)?;
        let ghost pv = partition_tables(cf.tables(), partition@);
        let mut tables: Vec<SstMeta> = Vec::new();
        let mut max_id: u64 = 0;
        let mut i: usize = 0;
        assert(crate::manifest::sst_views(tables@) =~= off_tiers(pv.take(0)));
        while i < part.len()
            invariant
                i <= part@.len(),
                pv == crate::manifest::sst_views(part@),
                forall|k: int| 0 <= k < pv.len() ==> (#[trigger] pv[k]).id < u64::MAX,
                crate::manifest::sst_views(tables@) == off_tiers(pv.take(i as int)),
                max_id < u64::MAX,
                forall|k: int| 0 <= k < i ==> (#[trigger] pv[k]).id <= max_id,
                i > 0 ==> exists|k: int| 0 <= k < i && (#[trigger] pv[k]).id == max_id,
                i == 0 ==> max_id == 0,
            decreases part@.len() - i,
        {
            let mut m = part[i].duplicate();
            assert(pv[i as int] == part@[i as int]@);
            m.tier = None;
            if m.id > max_id {
                max_id = m.id;
            } else if i == 0 {
                assert(pv[0].id == max_id);
            }
            let ghost t0 = tables@;
            let ghost mv = m@;
            tables.push(m);
            proof {
                assert(crate::manifest::sst_views(tables@) =~= crate::manifest::sst_views(t0).push(mv));
                assert(off_tiers(pv.take(i + 1)) =~= off_tiers(pv.take(i as int)).push(mv));
            }
            i += 1;
        }
        assert(pv.take(pv.len() as int) =~= pv);
        let mut cfs: Vec<CfManifest> = Vec::new();
        let name = cf.name.clone();
        let entry = CfManifest { name, config, sstables: tables, unified_id: None };
        let ghost ev = entry@;
        cfs.push(entry);
        assert(crate::manifest::cf_views(cfs@) =~= seq![ev]);
        let wal_layout = if self.unified_memtable { WalLayout::Unified } else { WalLayout::PerColumnFamily };
        Ok(
            Manifest {
                next_file_id: max_id + 1,
                global_seq: self.visible_seq,
                wal_layout,
                instance_nonce: None,
                caps: self.caps,
                generation: 0,
                applied_through: 0,
                next_edit_id: 0,
                cfs,
            },
        )
    }
}

/// Tables as they are once they lie on no named tier.
pub open spec fn off_tiers(v: Seq<crate::manifest::SstMetaView>) -> Seq<crate::manifest::SstMetaView> {
    v.map_values(|t: crate::manifest::SstMetaView| crate::manifest::SstMetaView { tier: None, ..t })
}

/// Whether `next` is the number behind the greatest of these tables.
pub open spec fn past_ids(v: Seq<crate::manifest::SstMetaView>, next: u64) -> bool {
    &&& forall|k: int| 0 <= k < v.len() ==> (#[trigger] v[k]).id < next
    &&& exists|k: int| 0 <= k < v.len() && (#[trigger] v[k]).id + 1 == next
}

/// The part that a detached part came to.
#[derive(Debug, Clone)]
pub struct DetachedPart {
    pub partition: String,
    /// Where its files lie now.
    pub dir: String,
    /// The tables that left the catalog.
    pub table_ids: Vec<u64>,
    /// The paths of its files.
    pub files: Vec<String>,
}

pub open spec fn detached_dir(cf_dir: Seq<char>, partition: Seq<char>) -> Seq<char> {
    cf_dir + "/detached/"@ + partition
}

pub open spec fn detached_klog(dir: Seq<char>, id: u64) -> Seq<char> {
    dir + "/"@ + crate::text::decimal_text(id as nat) + ".klog"@
}

pub open spec fn detached_vlog(dir: Seq<char>, id: u64) -> Seq<char> {
    dir + "/"@ + crate::text::decimal_text(id as nat) + ".vlog"@
}

/// The files of the first tables of a detached part: a key log each, and a
/// value log where there is one.
pub open spec fn detached_files(dir: Seq<char>, ids: Seq<u64>, vlogs: Seq<bool>) -> Seq<Seq<char>>
    decreases ids.len(),
{
    if ids.len() == 0 {
        Seq::empty()
    } else {
        let n = ids.len() - 1;
        let front = detached_files(dir, ids.drop_last(), vlogs);
        let k = front.push(detached_klog(dir, ids.last()));
        if vlogs[n] { k.push(detached_vlog(dir, ids.last())) } else { k }
    }
}

impl DetachedPart {
    /// Where the files of a detached part go. `vlogs` tells which tables have a
    /// value log.
    pub fn plan(cf_dir: &str, partition: &str, tables: &Vec<SstMeta>, vlogs: &Vec<bool>) -> (r: DetachedPart)
        requires
            tables@.len() == vlogs@.len(),
        ensures
            r.partition@ == partition@,
            r.dir@ == detached_dir(cf_dir@, partition@),
            r.table_ids@.len() == tables@.len(),
            forall|i: int| 0 <= i < tables@.len() ==> #[trigger] r.table_ids@[i] == tables@[i].id,
            crate::storage::texts(r.files@) == detached_files(r.dir@, r.table_ids@, vlogs@),
    {
        let dir = crate::text::join3(cf_dir, "/detached/", partition);
        let mut table_ids: Vec<u64> = Vec::new();
        let mut files: Vec<String> = Vec::new();
        let mut i: usize = 0;
        assert(crate::storage::texts(files@) =~= Seq::empty());
        while i < tables.len()
            invariant
                i <= tables@.len(),
                tables@.len() == vlogs@.len(),
                table_ids@.len() == i,
                forall|k: int| 0 <= k < i ==> #[trigger] table_ids@[k] == tables@[k].id,
                crate::storage::texts(files@) == detached_files(dir@, table_ids@, vlogs@),
            decreases tables@.len() - i,
        {
            let id = tables[i].id;
            let ghost f0 = files@;
            let ghost ids0 = table_ids@;
            let stem = crate::text::join3(dir.as_str(), "/", crate::text::decimal(id).as_str());
            let mut k = stem.clone();
            k.append(".klog");
            let ghost kv = k@;
            files.push(k);
            assert(crate::storage::texts(files@) =~= crate::storage::texts(f0).push(kv));
            if vlogs[i] {
                let mut v = stem;
                v.append(".vlog");
                let ghost vv = v@;
                let ghost f1 = files@;
                files.push(v);
                assert(crate::storage::texts(files@) =~= crate::storage::texts(f1).push(vv));
            }
            table_ids.push(id);
            assert(table_ids@.drop_last() =~= ids0);
            i += 1;
        }
        DetachedPart { partition: String::from_str(partition), dir, table_ids, files }
    }
}

// ---------------------------------------------------------------------------
// Laws
// ---------------------------------------------------------------------------

/// Whether two tables agree in every field but the tier that they lie on.
pub open spec fn agree_but_for_tier(a: crate::manifest::SstMetaView, b: crate::manifest::SstMetaView) -> bool {
    &&& a.id == b.id
    &&& a.level == b.level
    &&& a.num_entries == b.num_entries
    &&& a.num_tombstones == b.num_tombstones
    &&& a.max_seq == b.max_seq
    &&& a.klog_size == b.klog_size
    &&& a.vlog_size == b.vlog_size
    &&& a.min_key == b.min_key
    &&& a.max_key == b.max_key
    &&& a.partition == b.partition
    &&& a.max_entry_time == b.max_entry_time
    &&& a.object == b.object
    &&& a.last_compaction_time == b.last_compaction_time
    &&& a.range_count == b.range_count
    &&& a.range_min_seq == b.range_min_seq
    &&& a.range_max_seq == b.range_max_seq
    &&& a.range_min_key == b.range_min_key
    &&& a.range_max_key == b.range_max_key
}

/// A frozen catalog holds the tables of the part, one for one: each lies on no
/// named tier, and agrees with the table of the part in every other field.
pub proof fn lemma_frozen_tables_are_those_of_the_part(part: Seq<crate::manifest::SstMetaView>)
    ensures
        off_tiers(part).len() == part.len(),
        forall|i: int| 0 <= i < part.len() ==> (#[trigger] off_tiers(part)[i]).tier is None && agree_but_for_tier(off_tiers(part)[i], part[i]),
{
}

/// The tables of a partition are those tagged with it, and the rest are those
/// that are not, each in the order of the level: no table is lost or in both.
pub proof fn lemma_partition_splits_the_level(v: Seq<crate::manifest::SstMetaView>, partition: Seq<char>)
    ensures
        partition_tables(v, partition) == v.filter(|t: crate::manifest::SstMetaView| t.partition == Some(partition)),
        other_tables(v, partition) == v.filter(|t: crate::manifest::SstMetaView| t.partition != Some(partition)),
        partition_tables(v, partition).len() + other_tables(v, partition).len() == v.len(),
        partition_tables(v, partition).to_multiset().add(other_tables(v, partition).to_multiset()) == v.to_multiset(),
    decreases v.len(),
{
    reveal(Seq::filter);
    if v.len() > 0 {
        lemma_partition_splits_the_level(v.drop_last(), partition);
        let d = v.drop_last();
        let (p, o) = (partition_tables(d, partition), other_tables(d, partition));
        let x = v.last();
        assert(v =~= d.push(x));
        p.to_multiset_ensures();
        o.to_multiset_ensures();
        d.to_multiset_ensures();
        assert(d.push(x).to_multiset() =~= d.to_multiset().insert(x));
        assert(p.push(x).to_multiset() =~= p.to_multiset().insert(x));
        assert(o.push(x).to_multiset() =~= o.to_multiset().insert(x));
        assert(p.to_multiset().insert(x).add(o.to_multiset()) =~= d.to_multiset().insert(x));
        assert(p.to_multiset().add(o.to_multiset().insert(x)) =~= d.to_multiset().insert(x));
    } else {
        let e = Seq::<crate::manifest::SstMetaView>::empty();
        assert(v =~= e);
        e.to_multiset_ensures();
        assert(e.to_multiset().add(e.to_multiset()) =~= e.to_multiset());
    }
}

/// What a part's description says of a table is what the catalog says of it,
/// and the digest that is given.
pub proof fn lemma_description_tells_the_table(t: crate::manifest::SstMetaView, content: Seq<u8>)
    ensures
        ({
            let d = described(t, content);
            &&& d.id == t.id
            &&& d.tier == t.tier
            &&& d.object == t.object
            &&& d.identity.content == content
            &&& d.identity.max_seq == t.max_seq
            &&& d.identity.num_entries == t.num_entries
            &&& d.identity.klog_size == t.klog_size
            &&& d.identity.vlog_size == t.vlog_size
            &&& d.identity.min_key == t.min_key
            &&& d.identity.max_key == t.max_key
        }),
{
}

/// The description of a part has one table for each of the part's, with its
/// own digest.
pub proof fn lemma_descriptions_are_one_for_one(v: Seq<crate::manifest::SstMetaView>, contents: Seq<[u8; 32]>)
    requires
        v.len() == contents.len(),
    ensures
        all_described(v, contents).len() == v.len(),
        forall|i: int|
            0 <= i < v.len() ==> (#[trigger] all_described(v, contents)[i]).id == v[i].id && all_described(v, contents)[i].identity.content
                == contents[i]@ && all_described(v, contents)[i].identity.min_key == v[i].min_key,
{
}

/// What identifies a table is its digest, its newest sequence, its entries, the
/// lengths of its files and its keys. Its number, and where it lies, are none
/// of it.
pub proof fn lemma_identity_is_of_the_data(a: PartTable, b: PartTable)
    ensures
        a.identity() == b.identity() <==> a.content@ == b.content@ && a.max_seq == b.max_seq && a.num_entries == b.num_entries && a.klog_size
            == b.klog_size && a.vlog_size == b.vlog_size && a.min_key@ == b.min_key@ && a.max_key@ == b.max_key@,
        a@.id == a.id,
        a@.identity == a.identity(),
        a@.tier == crate::text::opt_text(a.tier),
        a@.object == crate::text::opt_text(a.object),
{
}

/// Two parts have one canonical form only where they have as many tables, which
/// agree in all that identifies them, one for one.
pub proof fn lemma_digest_covers_the_part(a: Seq<PartTable>, b: Seq<PartTable>)
    requires
        a.len() <= u64::MAX,
        b.len() <= u64::MAX,
        forall|i: int| 0 <= i < a.len() ==> (#[trigger] a[i]).min_key@.len() <= u64::MAX && a[i].max_key@.len() <= u64::MAX,
        forall|i: int| 0 <= i < b.len() ==> (#[trigger] b[i]).min_key@.len() <= u64::MAX && b[i].max_key@.len() <= u64::MAX,
    ensures
        part_wire(identities(a)) == part_wire(identities(b)) <==> a.len() == b.len() && forall|i: int|
            #![trigger a[i]]
            0 <= i < a.len() ==> a[i].content@ == b[i].content@ && a[i].max_seq == b[i].max_seq && a[i].num_entries == b[i].num_entries
                && a[i].klog_size == b[i].klog_size && a[i].vlog_size == b[i].vlog_size && a[i].min_key@ == b[i].min_key@ && a[i].max_key@
                == b[i].max_key@,
{
    let x = identities(a);
    let y = identities(b);
    assert forall|i: int| 0 <= i < x.len() implies identity_fits(#[trigger] x[i]) by {
        assert(x[i] == a[i].identity());
        assert(a[i].content@.len() == 32);
    }
    assert forall|i: int| 0 <= i < y.len() implies identity_fits(#[trigger] y[i]) by {
        assert(y[i] == b[i].identity());
        assert(b[i].content@.len() == 32);
    }
    if part_wire(x) == part_wire(y) {
        lemma_canonical_form_is_faithful(x, y);
        assert forall|i: int| 0 <= i < a.len() implies (#[trigger] a[i]).identity() == b[i].identity() by {
            assert(x[i] == a[i].identity());
            assert(y[i] == b[i].identity());
        }
    }
    if a.len() == b.len() && (forall|i: int| 0 <= i < a.len() ==> (#[trigger] a[i]).identity() == b[i].identity()) {
        assert(x =~= y);
    }
}

/// The size of a part is the size of its tables, both files of each counted:
/// a table more makes it larger by its files.
pub proof fn lemma_size_adds_up(v: Seq<PartTable>, t: PartTable)
    ensures
        total_size(v.push(t)) == total_size(v) + t.klog_size + t.vlog_size,
        total_size(Seq::empty()) == 0,
{
    assert(v.push(t).drop_last() =~= v);
}

/// The hexadecimal digits of a digest are two for each byte, and no two digests
/// have the same.
pub proof fn lemma_hex_digest_is_faithful(a: Seq<u8>, b: Seq<u8>)
    requires
        a.len() == b.len(),
        hex_of(a) == hex_of(b),
    ensures
        a == b,
    decreases a.len(),
{
    if a.len() > 0 {
        let (x, y) = (a.last() as nat, b.last() as nat);
        let (p, q) = (hex_of(a.drop_last()), hex_of(b.drop_last()));
        crate::text::lemma_hex_is_faithful(x, y, 2);
        lemma_hex_len(a.drop_last());
        lemma_hex_len(b.drop_last());
        reveal_with_fuel(crate::text::pow16, 3);
        assert(hex_of(a).len() == p.len() + 2);
        assert(hex_of(b).len() == q.len() + 2);
        assert(hex_of(a).take(p.len() as int) =~= p);
        assert(hex_of(b).take(q.len() as int) =~= q);
        assert(hex_of(a).skip(p.len() as int) =~= crate::text::hex_text(x, 2));
        assert(hex_of(b).skip(q.len() as int) =~= crate::text::hex_text(y, 2));
        lemma_hex_digest_is_faithful(a.drop_last(), b.drop_last());
        assert(a =~= a.drop_last().push(a.last()));
        assert(b =~= b.drop_last().push(b.last()));
    } else {
        assert(a =~= b);
    }
}

proof fn lemma_hex_len(s: Seq<u8>)
    ensures
        hex_of(s).len() == 2 * s.len(),
    decreases s.len(),
{
    if s.len() > 0 {
        lemma_hex_len(s.drop_last());
        crate::text::lemma_hex_is_faithful(s.last() as nat, 0, 2);
    }
}

/// The files of a detached part are the key log of each of its tables, and the
/// value log of each that has one, named by the number of the table: no file is
/// left behind and no other is named.
pub proof fn lemma_detached_files_are_those_of_the_tables(dir: Seq<char>, ids: Seq<u64>, vlogs: Seq<bool>, f: Seq<char>)
    requires
        vlogs.len() >= ids.len(),
    ensures
        detached_files(dir, ids, vlogs).contains(f) <==> exists|i: int|
            #![trigger ids[i]]
            0 <= i < ids.len() && (f == dir + "/"@ + crate::text::decimal_text(ids[i] as nat) + ".klog"@ || (vlogs[i] && f == dir + "/"@
                + crate::text::decimal_text(ids[i] as nat) + ".vlog"@)),
    decreases ids.len(),
{
    if ids.len() > 0 {
        let n = ids.len() - 1;
        let d = ids.drop_last();
        lemma_detached_files_are_those_of_the_tables(dir, d, vlogs, f);
        let front = detached_files(dir, d, vlogs);
        let k = front.push(detached_klog(dir, ids.last()));
        let all = detached_files(dir, ids, vlogs);
        assert(k.contains(f) <==> front.contains(f) || f == detached_klog(dir, ids.last())) by {
            if front.contains(f) {
                let i = front.index_of(f);
                assert(k[i] == f);
            }
            if f == detached_klog(dir, ids.last()) {
                assert(k[front.len() as int] == f);
            }
        }
        assert(all.contains(f) <==> k.contains(f) || (vlogs[n] && f == detached_vlog(dir, ids.last()))) by {
            if vlogs[n] {
                if k.contains(f) {
                    let i = k.index_of(f);
                    assert(all[i] == f);
                }
                assert(all[k.len() as int] == detached_vlog(dir, ids.last()));
            }
        }
        if front.contains(f) {
            let i = choose|i: int|
                #![trigger d[i]]
                0 <= i < d.len() && (f == dir + "/"@ + crate::text::decimal_text(d[i] as nat) + ".klog"@ || (vlogs[i] && f == dir + "/"@
                    + crate::text::decimal_text(d[i] as nat) + ".vlog"@));
            assert(ids[i] == d[i]);
        }
        assert(ids[n] == ids.last());
        if exists|i: int|
            #![trigger ids[i]]
            0 <= i < ids.len() && (f == dir + "/"@ + crate::text::decimal_text(ids[i] as nat) + ".klog"@ || (vlogs[i] && f == dir + "/"@
                + crate::text::decimal_text(ids[i] as nat) + ".vlog"@)) {
            let i = choose|i: int|
                #![trigger ids[i]]
                0 <= i < ids.len() && (f == dir + "/"@ + crate::text::decimal_text(ids[i] as nat) + ".klog"@ || (vlogs[i] && f == dir + "/"@
                    + crate::text::decimal_text(ids[i] as nat) + ".vlog"@));
            if i < n {
                assert(d[i] == ids[i]);
            }
        }
    }
}

/// A detached part lies in a directory of its own below that of its family.
pub proof fn lemma_detached_parts_have_their_own_directory(cf_dir: Seq<char>, a: Seq<char>, b: Seq<char>)
    ensures
        detached_dir(cf_dir, a) == detached_dir(cf_dir, b) ==> a == b,
        detached_dir(cf_dir, a).take(cf_dir.len() as int) == cf_dir,
        detached_dir(cf_dir, a).skip(cf_dir.len() as int) == "/detached/"@ + a,
{
    let t = "/detached/"@;
    assert(detached_dir(cf_dir, a).take(cf_dir.len() as int) =~= cf_dir);
    assert(detached_dir(cf_dir, a).skip(cf_dir.len() as int) =~= t + a);
    assert(detached_dir(cf_dir, a).skip((cf_dir.len() + t.len()) as int) =~= a);
    assert(detached_dir(cf_dir, b).skip((cf_dir.len() + t.len()) as int) =~= b);
}

/// A part stands on a shared tier where one of its tables does: on a tier that
/// was configured as shared.
pub proof fn lemma_part_is_shared_where_a_table_is(v: Seq<crate::manifest::SstMetaView>, tiers: Seq<crate::db::TierDef>)
    ensures
        any_shared(v, tiers) <==> exists|i: int, d: int|
            0 <= i < v.len() && 0 <= d < tiers.len() && #[trigger] tiers[d].shared && (#[trigger] v[i]).tier == Some(tiers[d].name@),
{
    if any_shared(v, tiers) {
        let i = choose|i: int| 0 <= i < v.len() && on_shared(#[trigger] v[i], tiers);
        let n = v[i].tier->0;
        let d = choose|d: int| 0 <= d < tiers.len() && (#[trigger] tiers[d]).name@ == n && tiers[d].shared;
        assert(tiers[d].shared && v[i].tier == Some(tiers[d].name@));
    }
    if exists|i: int, d: int|
        0 <= i < v.len() && 0 <= d < tiers.len() && #[trigger] tiers[d].shared && (#[trigger] v[i]).tier == Some(tiers[d].name@) {
        let (i, d) = choose|i: int, d: int|
            0 <= i < v.len() && 0 <= d < tiers.len() && #[trigger] tiers[d].shared && (#[trigger] v[i]).tier == Some(tiers[d].name@);
        assert(tiers[d].name@ == v[i].tier->0);
        assert(on_shared(v[i], tiers));
    }
}

/// The next number of a frozen catalog is one more than the greatest of its
/// tables.
pub proof fn lemma_next_number_is_past_all(v: Seq<crate::manifest::SstMetaView>, a: u64, b: u64, i: int)
    requires
        past_ids(v, a),
    ensures
        0 <= i < v.len() ==> v[i].id < a,
        past_ids(v, b) ==> a == b,
        v.map_values(|t: crate::manifest::SstMetaView| t.id + 1).contains(a as int),
{
    let k = choose|k: int| 0 <= k < v.len() && (#[trigger] v[k]).id + 1 == a;
    assert(v.map_values(|t: crate::manifest::SstMetaView| t.id + 1)[k] == a);
    if past_ids(v, b) {
        let j = choose|j: int| 0 <= j < v.len() && (#[trigger] v[j]).id + 1 == b;
        assert(v[j].id < a && v[k].id < b);
    }
}

/// A description goes by the smallest key of the tables, and of those that have
/// the same by their number.
pub proof fn lemma_description_is_in_order(a: PartTableView, b: PartTableView)
    ensures
        a.identity.min_key == b.identity.min_key ==> (listed_before(a, b) <==> a.id < b.id),
        a.identity.min_key != b.identity.min_key ==> (listed_before(a, b) <==> crate::comparator::bytes_le(
            a.identity.min_key,
            b.identity.min_key,
        )),
{
    let x = a.identity.min_key;
    let y = b.identity.min_key;
    crate::comparator::lemma_bytes_total(x, y);
    crate::comparator::lemma_bytes_total(x, x);
    if crate::comparator::bytes_le(x, y) && crate::comparator::bytes_le(y, x) {
        crate::comparator::lemma_bytes_antisymmetric(x, y);
    }
}

} // verus!
