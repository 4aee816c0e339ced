//! Orders on user keys.

use vstd::prelude::*;

verus! {

/// How one key stands to another.
#[derive(Debug, Clone, Copy, PartialEq, Eq, Structural)]
pub enum KeyOrder {
    Less,
    Equal,
    Greater,
}

impl KeyOrder {
    pub fn is_lt(self) -> (r: bool)
        ensures
            r == (self is Less),
    {
        matches!(self, KeyOrder::Less)
    }

    pub fn is_le(self) -> (r: bool)
        ensures
            r == (self !is Greater),
    {
        !matches!(self, KeyOrder::Greater)
    }

    pub fn is_eq(self) -> (r: bool)
        ensures
            r == (self is Equal),
    {
        matches!(self, KeyOrder::Equal)
    }

    pub fn is_ge(self) -> (r: bool)
        ensures
            r == (self !is Less),
    {
        !matches!(self, KeyOrder::Less)
    }

    pub fn is_gt(self) -> (r: bool)
        ensures
            r == (self is Greater),
    {
        matches!(self, KeyOrder::Greater)
    }
}

/// A total preorder on keys: two different keys may compare equal.
pub trait Comparator: Sized {
    /// Whether `a` does not come after `b`.
    spec fn le(&self, a: Seq<u8>, b: Seq<u8>) -> bool;

    proof fn lemma_total(&self, a: Seq<u8>, b: Seq<u8>)
        ensures
            self.le(a, b) || self.le(b, a),
    ;

    proof fn lemma_transitive(&self, a: Seq<u8>, b: Seq<u8>, c: Seq<u8>)
        requires
            self.le(a, b),
            self.le(b, c),
        ensures
            self.le(a, c),
    ;

    /// Compare two keys.
    fn compare(&self, a: &[u8], b: &[u8]) -> (r: KeyOrder)
        ensures
            r is Less <==> !self.le(b@, a@),
            r is Greater <==> !self.le(a@, b@),
    ;

    /// Whether the order is known to be the plain order of bytes.
    fn is_bytewise(&self) -> (r: bool)
        ensures
            r ==> forall|a: Seq<u8>, b: Seq<u8>| #[trigger] self.le(a, b) == bytes_le(a, b),
    ;

    /// The same comparator again.
    fn duplicate(&self) -> (r: Self)
        ensures
            r == *self,
    ;
}

/// An order in which only equal keys compare equal. A memtable spreads keys over
/// its shards by their bytes, so keys that compare equal must be the same there.
pub trait KeyComparator: Comparator {
    proof fn lemma_antisymmetric(&self, a: Seq<u8>, b: Seq<u8>)
        requires
            self.le(a, b),
            self.le(b, a),
        ensures
            a == b,
    ;
}

/// `a` comes before `b`.
pub open spec fn key_lt<C: Comparator>(c: C, a: Seq<u8>, b: Seq<u8>) -> bool {
    !c.le(b, a)
}

/// `a` and `b` compare equal.
pub open spec fn same_key<C: Comparator>(c: C, a: Seq<u8>, b: Seq<u8>) -> bool {
    c.le(a, b) && c.le(b, a)
}

/// The comparator is total and transitive, and so reflexive.
pub proof fn lemma_order<C: Comparator>(c: C)
    ensures
        forall|a: Seq<u8>| #[trigger] c.le(a, a),
        forall|a: Seq<u8>, b: Seq<u8>| #[trigger] c.le(a, b) || c.le(b, a),
        forall|a: Seq<u8>, b: Seq<u8>, d: Seq<u8>| #[trigger] c.le(a, b) && #[trigger] c.le(b, d) ==> c.le(a, d),
{
    assert forall|a: Seq<u8>, b: Seq<u8>| #[trigger] c.le(a, b) || c.le(b, a) by {
        c.lemma_total(a, b);
    }
    assert forall|a: Seq<u8>| #[trigger] c.le(a, a) by {
        c.lemma_total(a, a);
    }
    assert forall|a: Seq<u8>, b: Seq<u8>, d: Seq<u8>| #[trigger] c.le(a, b) && #[trigger] c.le(b, d) implies c.le(a, d) by {
        c.lemma_transitive(a, b, d);
    }
}

/// The plain order of bytes: the first byte that differs decides, and a key
/// comes before every key it is the beginning of.
pub open spec fn bytes_le(a: Seq<u8>, b: Seq<u8>) -> bool
    decreases a.len(),
{
    if a.len() == 0 {
        true
    } else if b.len() == 0 {
        false
    } else if a[0] == b[0] {
        bytes_le(a.skip(1), b.skip(1))
    } else {
        a[0] < b[0]
    }
}

pub proof fn lemma_bytes_total(a: Seq<u8>, b: Seq<u8>)
    ensures
        bytes_le(a, b) || bytes_le(b, a),
    decreases a.len(),
{
    if a.len() > 0 && b.len() > 0 && a[0] == b[0] {
        lemma_bytes_total(a.skip(1), b.skip(1));
    }
}

pub proof fn lemma_bytes_transitive(a: Seq<u8>, b: Seq<u8>, c: Seq<u8>)
    requires
        bytes_le(a, b),
        bytes_le(b, c),
    ensures
        bytes_le(a, c),
    decreases a.len(),
{
    if a.len() > 0 && b.len() > 0 && c.len() > 0 && a[0] == b[0] && b[0] == c[0] {
        lemma_bytes_transitive(a.skip(1), b.skip(1), c.skip(1));
    }
}

/// Bytes that compare equal are equal.
pub proof fn lemma_bytes_antisymmetric(a: Seq<u8>, b: Seq<u8>)
    requires
        bytes_le(a, b),
        bytes_le(b, a),
    ensures
        a == b,
    decreases a.len(),
{
    if a.len() > 0 && b.len() > 0 {
        lemma_bytes_antisymmetric(a.skip(1), b.skip(1));
        assert(a =~= seq![a[0]] + a.skip(1));
        assert(b =~= seq![b[0]] + b.skip(1));
        assert(a =~= b);
    } else {
        assert(a =~= b);
    }
}

/// Compare two keys byte by byte.
pub fn compare_bytes(a: &[u8], b: &[u8]) -> (r: KeyOrder)
    ensures
        r is Less <==> !bytes_le(b@, a@),
        r is Greater <==> !bytes_le(a@, b@),
{
    let mut i: usize = 0;
    assert(a@.skip(0) =~= a@);
    assert(b@.skip(0) =~= b@);
    while i < a.len() && i < b.len()
        invariant
            i <= a.len(),
            i <= b.len(),
            bytes_le(a@, b@) == bytes_le(a@.skip(i as int), b@.skip(i as int)),
            bytes_le(b@, a@) == bytes_le(b@.skip(i as int), a@.skip(i as int)),
        decreases a.len() - i,
    {
        let x = a[i];
        let y = b[i];
        assert(a@.skip(i as int)[0] == x);
        assert(b@.skip(i as int)[0] == y);
        if x < y {
            return KeyOrder::Less;
        }
        if y < x {
            return KeyOrder::Greater;
        }
        assert(a@.skip(i as int).skip(1) =~= a@.skip(i + 1));
        assert(b@.skip(i as int).skip(1) =~= b@.skip(i + 1));
        i += 1;
    }
    if i < b.len() {
        KeyOrder::Less
    } else if i < a.len() {
        KeyOrder::Greater
    } else {
        KeyOrder::Equal
    }
}

/// The plain order of bytes.
#[derive(Debug, Clone, Copy, PartialEq, Eq, Structural)]
pub struct Bytewise {}

impl Comparator for Bytewise {
    open spec fn le(&self, a: Seq<u8>, b: Seq<u8>) -> bool {
        bytes_le(a, b)
    }

    proof fn lemma_total(&self, a: Seq<u8>, b: Seq<u8>) {
        lemma_bytes_total(a, b);
    }

    proof fn lemma_transitive(&self, a: Seq<u8>, b: Seq<u8>, c: Seq<u8>) {
        lemma_bytes_transitive(a, b, c);
    }

    fn compare(&self, a: &[u8], b: &[u8]) -> (r: KeyOrder) {
        compare_bytes(a, b)
    }

    fn is_bytewise(&self) -> (r: bool) {
        true
    }

    fn duplicate(&self) -> (r: Bytewise) {
        Bytewise {  }
    }
}

impl KeyComparator for Bytewise {
    proof fn lemma_antisymmetric(&self, a: Seq<u8>, b: Seq<u8>) {
        lemma_bytes_antisymmetric(a, b);
    }
}

/// The plain order of bytes, backwards.
#[derive(Debug, Clone, Copy, PartialEq, Eq, Structural)]
pub struct Reverse {}

impl Comparator for Reverse {
    open spec fn le(&self, a: Seq<u8>, b: Seq<u8>) -> bool {
        bytes_le(b, a)
    }

    proof fn lemma_total(&self, a: Seq<u8>, b: Seq<u8>) {
        lemma_bytes_total(a, b);
    }

    proof fn lemma_transitive(&self, a: Seq<u8>, b: Seq<u8>, c: Seq<u8>) {
        lemma_bytes_transitive(c, b, a);
    }

    fn compare(&self, a: &[u8], b: &[u8]) -> (r: KeyOrder) {
        compare_bytes(b, a)
    }

    fn is_bytewise(&self) -> (r: bool) {
        false
    }

    fn duplicate(&self) -> (r: Reverse) {
        Reverse {  }
    }
}

impl KeyComparator for Reverse {
    proof fn lemma_antisymmetric(&self, a: Seq<u8>, b: Seq<u8>) {
        lemma_bytes_antisymmetric(a, b);
    }
}

/// The comparator of a column family that names no other.
pub fn default_comparator() -> (r: Bytewise)
    ensures
        r == (Bytewise {  }),
{
    Bytewise {  }
}

/// The first byte that differs decides, and a key comes before every key that
/// it is the beginning of.
pub proof fn lemma_first_difference_decides(a: Seq<u8>, b: Seq<u8>, i: int)
    requires
        0 <= i <= a.len(),
        i <= b.len(),
        forall|k: int| 0 <= k < i ==> #[trigger] a[k] == b[k],
    ensures
        i == a.len() ==> bytes_le(a, b),
        i == b.len() && i < a.len() ==> !bytes_le(a, b),
        i < a.len() && i < b.len() && a[i] != b[i] ==> (bytes_le(a, b) <==> a[i] < b[i]),
    decreases i,
{
    if i > 0 {
        let x = a.skip(1);
        let y = b.skip(1);
        assert(a[0] == b[0]);
        assert forall|k: int| 0 <= k < i - 1 implies #[trigger] x[k] == y[k] by {
            assert(a[k + 1] == b[k + 1]);
        }
        lemma_first_difference_decides(x, y, i - 1);
    }
}

} // verus!
