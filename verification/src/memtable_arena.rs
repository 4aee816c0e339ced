//! A shard of the memtable as a skip list whose nodes stand in one vector and
//! refer to each other by index.
//!
//! Node 0 is the head; as a successor, 0 means that there is none. A node of
//! height `h` is linked on levels `0..h`, and the level-0 list holds them all.

use vstd::prelude::*;

use crate::comparator::{KeyComparator, KeyOrder};
use crate::encoding::copy_bytes;
use crate::key_prefix::{compare_prefixed, key_prefix8};
use crate::memtable::{flag_bits, Entry, Lookup};
use crate::place::{finish_comparison, Item, Payload, Place};
use crate::wal::RecordRef;

verus! {

/// The height of the tallest tower.
pub const MAX_HEIGHT: usize = 8;

struct Node {
    /// The first eight bytes of the key.
    prefix: u64,
    seq: u64,
    key: Vec<u8>,
    value: Vec<u8>,
    ttl: i64,
    flags: u8,
    /// The successor on each level of the node's tower.
    next: Vec<usize>,
}

spec fn place_at(nodes: Seq<Node>, i: int) -> Place {
    (nodes[i].key@, nodes[i].seq)
}

spec fn payload_at(nodes: Seq<Node>, i: int) -> Payload {
    Payload { value: nodes[i].value@, ttl: nodes[i].ttl, flags: nodes[i].flags }
}

spec fn tower(nodes: Seq<Node>, i: int) -> nat {
    nodes[i].next@.len()
}

spec fn succ(nodes: Seq<Node>, i: int, l: int) -> int {
    nodes[i].next@[l] as int
}

/// The `k`-th node of a list; 0 outside it.
spec fn at(chain: Seq<int>, k: int) -> int {
    if 0 <= k < chain.len() { chain[k] } else { 0 }
}

spec fn linked(nodes: Seq<Node>, chain: Seq<int>, l: int, k: int) -> bool {
    succ(nodes, at(chain, k), l) == at(chain, k + 1)
}

/// Whether `chain` is the list of level `l`: the nodes below `limit` whose
/// tower reaches that level, in order, each linked to the next.
spec fn chain_ok<C: KeyComparator>(ord: C, nodes: Seq<Node>, chain: Seq<int>, l: int, limit: int) -> bool {
    &&& forall|k: int| 0 <= k < chain.len() ==> 1 <= #[trigger] chain[k] < limit && tower(nodes, chain[k]) > l
    &&& forall|j: int, k: int|
        0 <= j < k < chain.len() ==> crate::place::place_lt(ord, place_at(nodes, #[trigger] chain[j]), place_at(nodes, #[trigger] chain[k]))
    &&& forall|k: int| -1 <= k < chain.len() ==> #[trigger] linked(nodes, chain, l, k)
    &&& forall|i: int| 1 <= i < limit && #[trigger] tower(nodes, i) > l ==> chain.contains(i)
}

/// Whether a place comes before `p`, which itself counts where `inclusive`.
spec fn passes<C: KeyComparator>(ord: C, q: Place, p: Place, inclusive: bool) -> bool {
    crate::place::place_lt(ord, q, p) || (inclusive && q == p)
}

/// Whether the first `k` nodes of a list, and no others, come before `p`.
spec fn splits<C: KeyComparator>(ord: C, nodes: Seq<Node>, chain: Seq<int>, p: Place, inclusive: bool, k: int) -> bool {
    &&& 0 <= k <= chain.len()
    &&& forall|j: int| 0 <= j < k ==> passes(ord, place_at(nodes, #[trigger] chain[j]), p, inclusive)
    &&& forall|j: int| k <= j < chain.len() ==> !passes(ord, place_at(nodes, #[trigger] chain[j]), p, inclusive)
}

/// Whether `x` is the last node of a list that comes before `p`.
spec fn is_last_before<C: KeyComparator>(ord: C, nodes: Seq<Node>, chain: Seq<int>, p: Place, inclusive: bool, x: int) -> bool {
    exists|k: int| #[trigger] splits(ord, nodes, chain, p, inclusive, k) && x == at(chain, k - 1)
}

spec fn is_node(nodes: Seq<Node>, p: Place, i: int) -> bool {
    1 <= i < nodes.len() && place_at(nodes, i) == p
}

spec fn node_map(nodes: Seq<Node>) -> Map<Place, Payload> {
    Map::new(|p: Place| exists|i: int| is_node(nodes, p, i), |p: Place| payload_at(nodes, choose|i: int| is_node(nodes, p, i)))
}

/// Everything but the links of level `l` at the nodes `a` and `b` is as it was.
spec fn same_but(n0: Seq<Node>, n1: Seq<Node>, l: int, a: int, b: int) -> bool {
    &&& n0.len() == n1.len()
    &&& forall|i: int| 0 <= i < n0.len() ==> #[trigger] place_at(n1, i) == place_at(n0, i)
    &&& forall|i: int| 0 <= i < n0.len() ==> #[trigger] payload_at(n1, i) == payload_at(n0, i)
    &&& forall|i: int| 0 <= i < n0.len() ==> #[trigger] tower(n1, i) == tower(n0, i)
    &&& forall|i: int| 0 <= i < n0.len() ==> (#[trigger] n1[i]).prefix == n0[i].prefix
    &&& forall|i: int, m: int|
        0 <= i < n0.len() && 0 <= m < tower(n0, i) && !(m == l && (i == a || i == b)) ==> #[trigger] succ(n1, i, m) == succ(n0, i, m)
}

proof fn lemma_other_level<C: KeyComparator>(ord: C, n0: Seq<Node>, n1: Seq<Node>, chain: Seq<int>, m: int, limit: int, l: int, a: int, b: int)
    requires
        chain_ok(ord, n0, chain, m, limit),
        same_but(n0, n1, l, a, b),
        m != l,
        0 <= m < MAX_HEIGHT,
        limit <= n0.len(),
        n0.len() >= 1,
        tower(n0, 0) == MAX_HEIGHT,
    ensures
        chain_ok(ord, n1, chain, m, limit),
{
    assert forall|k: int| -1 <= k < chain.len() implies #[trigger] linked(n1, chain, m, k) by {
        assert(linked(n0, chain, m, k));
        let i = at(chain, k);
        if k >= 0 {
            assert(chain[k] == i);
        }
        assert(0 <= m < tower(n0, i));
        assert(succ(n1, i, m) == succ(n0, i, m));
    }
    assert forall|k: int| 0 <= k < chain.len() implies 1 <= #[trigger] chain[k] < limit && tower(n1, chain[k]) > m by {
        assert(tower(n1, chain[k]) == tower(n0, chain[k]));
    }
    assert forall|j: int, k: int| 0 <= j < k < chain.len() implies crate::place::place_lt(
        ord,
        place_at(n1, #[trigger] chain[j]),
        place_at(n1, #[trigger] chain[k]),
    ) by {
        assert(place_at(n1, chain[j]) == place_at(n0, chain[j]));
        assert(place_at(n1, chain[k]) == place_at(n0, chain[k]));
    }
    assert forall|i: int| 1 <= i < limit && #[trigger] tower(n1, i) > m implies chain.contains(i) by {
        assert(tower(n1, i) == tower(n0, i));
    }
}

proof fn lemma_link_level<C: KeyComparator>(ord: C, n0: Seq<Node>, n1: Seq<Node>, chain: Seq<int>, l: int, k: int, n: int)
    requires
        0 <= l < MAX_HEIGHT,
        n == n0.len() - 1,
        n >= 1,
        chain_ok(ord, n0, chain, l, n),
        same_but(n0, n1, l, at(chain, k - 1), n),
        splits(ord, n0, chain, place_at(n0, n), false, k),
        forall|i: int| 1 <= i < n ==> #[trigger] place_at(n0, i) != place_at(n0, n),
        tower(n0, n) > l,
        tower(n0, 0) == MAX_HEIGHT,
        succ(n1, n, l) == at(chain, k),
        succ(n1, at(chain, k - 1), l) == n,
    ensures
        chain_ok(ord, n1, chain.insert(k, n), l, n + 1),
{
    let c1 = chain.insert(k, n);
    let p = place_at(n0, n);
    crate::place::lemma_places(ord, true);
    assert forall|j: int| 0 <= j < c1.len() implies #[trigger] c1[j] == (if j < k {
        chain[j]
    } else if j == k {
        n
    } else {
        chain[j - 1]
    }) by {}
    assert forall|j: int| 0 <= j < c1.len() implies 1 <= #[trigger] c1[j] < n + 1 && tower(n1, c1[j]) > l by {
        if j != k {
            let x = chain[if j < k { j } else { j - 1 }];
            assert(tower(n1, x) == tower(n0, x));
        } else {
            assert(tower(n1, n) == tower(n0, n));
        }
    }
    assert forall|a: int, b: int| 0 <= a < b < c1.len() implies crate::place::place_lt(
        ord,
        place_at(n1, #[trigger] c1[a]),
        place_at(n1, #[trigger] c1[b]),
    ) by {
        let x = if a < k { a } else { a - 1 };
        let y = if b < k { b } else { b - 1 };
        assert(place_at(n1, n) == p);
        if a != k {
            assert(c1[a] == chain[x]);
            assert(place_at(n1, chain[x]) == place_at(n0, chain[x]));
        }
        if b != k {
            assert(c1[b] == chain[y]);
            assert(place_at(n1, chain[y]) == place_at(n0, chain[y]));
        }
        if a == k {
            let q = place_at(n0, chain[y]);
            assert(!passes(ord, q, p, false));
            assert(q != p);
            assert(crate::place::leads(ord, true, q, p) || crate::place::leads(ord, true, p, q));
        } else if b == k {
            assert(passes(ord, place_at(n0, chain[x]), p, false));
        } else {
            assert(crate::place::place_lt(ord, place_at(n0, chain[x]), place_at(n0, chain[y])));
        }
    }
    assert forall|j: int| -1 <= j < c1.len() implies #[trigger] linked(n1, c1, l, j) by {
        if j < k - 1 {
            assert(linked(n0, chain, l, j));
            let i = at(chain, j);
            assert(at(c1, j) == i);
            assert(at(c1, j + 1) == at(chain, j + 1));
            if j >= 0 {
                assert(chain[j] == i);
                if k - 1 >= 0 {
                    assert(crate::place::place_lt(ord, place_at(n0, chain[j]), place_at(n0, chain[k - 1])));
                }
            }
            assert(i != at(chain, k - 1)) by {
                if i == at(chain, k - 1) {
                    assert(chain[k - 1] >= 1);
                    assert(j >= 0);
                    assert(crate::place::leads(ord, true, place_at(n0, chain[j]), place_at(n0, chain[k - 1])));
                }
            }
            assert(0 <= l < tower(n0, i));
            assert(succ(n1, i, l) == succ(n0, i, l));
        } else if j == k - 1 {
            assert(at(c1, j) == at(chain, k - 1));
            assert(at(c1, k) == n);
        } else if j == k {
            assert(at(c1, k) == n);
            assert(at(c1, k + 1) == at(chain, k));
        } else {
            assert(linked(n0, chain, l, j - 1));
            let i = at(chain, j - 1);
            assert(chain[j - 1] == i);
            assert(at(c1, j) == i);
            assert(at(c1, j + 1) == at(chain, j));
            if k - 1 >= 0 {
                assert(crate::place::leads(ord, true, place_at(n0, chain[k - 1]), place_at(n0, chain[j - 1])));
            }
            assert(i != at(chain, k - 1));
            assert(succ(n1, i, l) == succ(n0, i, l));
        }
    }
    assert forall|i: int| 1 <= i < n + 1 && #[trigger] tower(n1, i) > l implies c1.contains(i) by {
        if i == n {
            assert(c1[k] == n);
        } else {
            assert(tower(n1, i) == tower(n0, i));
            let j = choose|j: int| 0 <= j < chain.len() && chain[j] == i;
            assert(c1[if j < k { j } else { j + 1 }] == i);
        }
    }
}

/// The number that is drawn after `x`.
spec fn drawn(x: u32) -> u32 {
    let a = x ^ (x << 13u32);
    let b = a ^ (a >> 17u32);
    b ^ (b << 5u32)
}

/// The height that a tower of height `h` comes to, where `x` was drawn last,
/// and the number that is then the last drawn: one draw in four makes it grow,
/// and the first that does not ends it, as does the greatest height.
spec fn grown(x: u32, h: int) -> (int, u32)
    decreases MAX_HEIGHT - h,
{
    let y = drawn(x);
    if h < MAX_HEIGHT && y % 4 == 0 { grown(y, h + 1) } else { (h, y) }
}

/// Versions of keys in the order of `C`.
pub struct ArenaShard<C: KeyComparator> {
    nodes: Vec<Node>,
    chains: Ghost<Seq<Seq<int>>>,
    height: usize,
    rng: u32,
    ord: C,
    bytewise: bool,
}

impl<C: KeyComparator> ArenaShard<C> {
    spec fn order(self) -> Seq<int> {
        self.chains@[0]
    }

    /// What is stored at each place.
    pub closed spec fn contents(self) -> Map<Place, Payload> {
        node_map(self.nodes@)
    }

    pub closed spec fn comparator(self) -> C {
        self.ord
    }

    /// The lists of all levels are in order and hold the nodes whose tower
    /// reaches them.
    pub closed spec fn valid(self) -> bool {
        &&& self.nodes@.len() >= 1
        &&& tower(self.nodes@, 0) == MAX_HEIGHT
        &&& forall|i: int| 1 <= i < self.nodes@.len() ==> 1 <= #[trigger] tower(self.nodes@, i) <= MAX_HEIGHT
        &&& forall|i: int|
            1 <= i < self.nodes@.len() ==> (#[trigger] self.nodes@[i]).prefix == crate::key_prefix::prefix_value(self.nodes@[i].key@, 0)
        &&& self.chains@.len() == MAX_HEIGHT
        &&& forall|l: int| 0 <= l < MAX_HEIGHT ==> chain_ok(self.ord, self.nodes@, #[trigger] self.chains@[l], l, self.nodes@.len() as int)
        &&& 1 <= self.height <= MAX_HEIGHT
        &&& forall|l: int| self.height <= l < MAX_HEIGHT ==> (#[trigger] self.chains@[l]).len() == 0
        &&& self.bytewise ==> forall|a: Seq<u8>, b: Seq<u8>| #[trigger] self.ord.le(a, b) == crate::comparator::bytes_le(a, b)
    }

    proof fn lemma_node(self, i: int)
        requires
            self.valid(),
            1 <= i < self.nodes@.len(),
        ensures
            self.contents().dom().contains(place_at(self.nodes@, i)),
            self.contents()[place_at(self.nodes@, i)] == payload_at(self.nodes@, i),
            exists|k: int| 0 <= k < self.order().len() && self.order()[k] == i,
    {
        let p = place_at(self.nodes@, i);
        let c = self.order();
        assert(chain_ok(self.ord, self.nodes@, self.chains@[0], 0, self.nodes@.len() as int));
        assert(is_node(self.nodes@, p, i));
        let j = choose|j: int| is_node(self.nodes@, p, j);
        assert(is_node(self.nodes@, p, j));
        assert(tower(self.nodes@, i) > 0 && tower(self.nodes@, j) > 0);
        assert(c.contains(i) && c.contains(j));
        let a = choose|a: int| 0 <= a < c.len() && c[a] == i;
        let b = choose|b: int| 0 <= b < c.len() && c[b] == j;
        crate::place::lemma_places(self.ord, true);
        if a < b {
            assert(crate::place::leads(self.ord, true, place_at(self.nodes@, c[a]), place_at(self.nodes@, c[b])));
        } else if b < a {
            assert(crate::place::leads(self.ord, true, place_at(self.nodes@, c[b]), place_at(self.nodes@, c[a])));
        }
    }

    /// A shard without entries.
    pub fn new(ord: C) -> (r: ArenaShard<C>)
        ensures
            r.valid(),
            r.comparator() == ord,
            r.contents() == Map::<Place, Payload>::empty(),
    {
        let bytewise = ord.is_bytewise();
        let head = Node { prefix: 0, seq: u64::MAX, key: Vec::new(), value: Vec::new(), ttl: 0, flags: 0, next: vec![0; MAX_HEIGHT] };
        let mut nodes: Vec<Node> = Vec::new();
        nodes.push(head);
        let ghost chains = Seq::new(MAX_HEIGHT as nat, |l: int| Seq::<int>::empty());
        let r = ArenaShard { nodes, chains: Ghost(chains), height: 1, rng: 0x2545_F491, ord, bytewise };
        proof {
            assert forall|l: int| 0 <= l < MAX_HEIGHT implies chain_ok(r.ord, r.nodes@, #[trigger] r.chains@[l], l, 1) by {
                assert forall|k: int| -1 <= k < r.chains@[l].len() implies #[trigger] linked(r.nodes@, r.chains@[l], l, k) by {
                    assert(r.nodes@[0].next@[l] == 0);
                }
            }
            assert(r.contents() =~= Map::<Place, Payload>::empty());
        }
        r
    }

    /// The height of the next tower: one, and one more for each draw in a row
    /// that is a multiple of four.
    fn random_height(&mut self) -> (h: usize)
        ensures
            1 <= h <= MAX_HEIGHT,
            (h as int, final(self).rng) == grown(old(self).rng, 1),
            final(self).nodes == old(self).nodes,
            final(self).chains == old(self).chains,
            final(self).height == old(self).height,
            final(self).ord == old(self).ord,
            final(self).bytewise == old(self).bytewise,
    {
        let mut h: usize = 1;
        loop
            invariant
                1 <= h <= MAX_HEIGHT,
                grown(self.rng, h as int) == grown(old(self).rng, 1),
                self.nodes == old(self).nodes,
                self.chains == old(self).chains,
                self.height == old(self).height,
                self.ord == old(self).ord,
                self.bytewise == old(self).bytewise,
            decreases MAX_HEIGHT - h,
        {
            let mut x = self.rng;
            x = x ^ (x << 13u32);
            x = x ^ (x >> 17u32);
            x = x ^ (x << 5u32);
            assert(x == drawn(self.rng));
            self.rng = x;
            if h < MAX_HEIGHT && x % 4 < 1 {
                h += 1;
            } else {
                return h;
            }
        }
    }

    /// How the node `i` stands to `(key, seq)`.
    fn compare_node(&self, i: usize, key: &[u8], prefix: u64, seq: u64) -> (r: KeyOrder)
        requires
            self.valid(),
            1 <= i < self.nodes@.len(),
            prefix == crate::key_prefix::prefix_value(key@, 0),
        ensures
            r is Less <==> crate::place::place_lt(self.ord, place_at(self.nodes@, i as int), (key@, seq)),
            r is Greater <==> crate::place::place_lt(self.ord, (key@, seq), place_at(self.nodes@, i as int)),
            r is Equal <==> place_at(self.nodes@, i as int) == (key@, seq),
    {
        let node = &self.nodes[i];
        let o = if self.bytewise {
            let o = compare_prefixed(node.prefix, node.key.as_slice(), prefix, key);
            proof {
                assert(self.ord.le(key@, node.key@) == crate::comparator::bytes_le(key@, node.key@));
                assert(self.ord.le(node.key@, key@) == crate::comparator::bytes_le(node.key@, key@));
            }
            o
        } else {
            self.ord.compare(node.key.as_slice(), key)
        };
        proof {
            crate::comparator::lemma_order(self.ord);
            assert(self.ord.le(key@, key@));
            if crate::comparator::same_key(self.ord, node.key@, key@) {
                self.ord.lemma_antisymmetric(node.key@, key@);
            }
        }
        finish_comparison(&self.ord, o, node.key.as_slice(), node.seq, key, seq)
    }

    /// On one level, from a node before `(key, seq)`, the last such node.
    fn walk(&self, level: usize, from: usize, key: &[u8], prefix: u64, seq: u64, inclusive: bool) -> (r: usize)
        requires
            self.valid(),
            level < MAX_HEIGHT,
            prefix == crate::key_prefix::prefix_value(key@, 0),
            from < self.nodes@.len(),
            from != 0 ==> tower(self.nodes@, from as int) > level && passes(self.ord, place_at(self.nodes@, from as int), (key@, seq), inclusive),
        ensures
            is_last_before(self.ord, self.nodes@, self.chains@[level as int], (key@, seq), inclusive, r as int),
    {
        let ghost c = self.chains@[level as int];
        let ghost p = (key@, seq);
        let ghost nodes = self.nodes@;
        let mut x = from;
        let ghost mut k: int = 0;
        proof {
            assert(chain_ok(self.ord, nodes, c, level as int, nodes.len() as int));
            crate::place::lemma_places(self.ord, true);
            if from != 0 {
                assert(tower(nodes, from as int) > level);
                assert(c.contains(from as int));
                let a = choose|a: int| 0 <= a < c.len() && c[a] == from;
                k = a + 1;
                assert forall|j: int| 0 <= j < k implies passes(self.ord, place_at(nodes, #[trigger] c[j]), p, inclusive) by {
                    if j < a {
                        assert(crate::place::leads(self.ord, true, place_at(nodes, c[j]), place_at(nodes, c[a])));
                        if place_at(nodes, c[a]) != p {
                            assert(crate::place::leads(self.ord, true, place_at(nodes, c[a]), p));
                        }
                        assert(crate::place::leads(self.ord, true, place_at(nodes, c[j]), p));
                    }
                }
            }
        }
        loop
            invariant
                self.valid(),
                level < MAX_HEIGHT,
                prefix == crate::key_prefix::prefix_value(key@, 0),
                c == self.chains@[level as int],
                nodes == self.nodes@,
                p == (key@, seq),
                chain_ok(self.ord, nodes, c, level as int, nodes.len() as int),
                0 <= k <= c.len(),
                x == at(c, k - 1),
                forall|j: int| 0 <= j < k ==> passes(self.ord, place_at(nodes, #[trigger] c[j]), p, inclusive),
            decreases c.len() - k,
        {
            proof {
                assert(linked(nodes, c, level as int, k - 1));
                if k >= 1 {
                    assert(c[k - 1] == x);
                }
                assert(tower(nodes, x as int) > level);
            }
            let next = self.nodes[x].next[level];
            if next == 0 {
                proof {
                    if k < c.len() {
                        assert(c[k] >= 1);
                    }
                    assert(splits(self.ord, nodes, c, p, inclusive, k));
                }
                return x;
            }
            assert(c[k] == next);
            let o = self.compare_node(next, key, prefix, seq);
            let onward = if inclusive { o.is_le() } else { o.is_lt() };
            proof {
                crate::place::lemma_places(self.ord, true);
                let q = place_at(nodes, next as int);
                assert(q == p || crate::place::leads(self.ord, true, q, p) || crate::place::leads(self.ord, true, p, q));
                assert(crate::place::leads(self.ord, true, q, p) ==> !crate::place::leads(self.ord, true, p, q));
                assert(!crate::place::leads(self.ord, true, p, p));
                assert(onward == passes(self.ord, q, p, inclusive));
            }
            if onward {
                x = next;
                proof {
                    k = k + 1;
                }
            } else {
                proof {
                    assert forall|j: int| k <= j < c.len() implies !passes(self.ord, place_at(nodes, #[trigger] c[j]), p, inclusive) by {
                        let q = place_at(nodes, c[k]);
                        let z = place_at(nodes, c[j]);
                        assert(crate::place::leads(self.ord, true, p, q) || q == p);
                        if j > k {
                            assert(crate::place::leads(self.ord, true, q, z));
                            assert(crate::place::leads(self.ord, true, p, z));
                            assert(!crate::place::leads(self.ord, true, z, p));
                        }
                    }
                    assert(splits(self.ord, nodes, c, p, inclusive, k));
                }
                return x;
            }
        }
    }

    proof fn lemma_down(self, l: int, x: int, p: Place, inclusive: bool)
        requires
            self.valid(),
            0 <= l < MAX_HEIGHT,
            is_last_before(self.ord, self.nodes@, self.chains@[l], p, inclusive, x),
        ensures
            0 <= x < self.nodes@.len(),
            x != 0 ==> tower(self.nodes@, x) > l && passes(self.ord, place_at(self.nodes@, x), p, inclusive),
    {
        let c = self.chains@[l];
        assert(chain_ok(self.ord, self.nodes@, c, l, self.nodes@.len() as int));
        let k = choose|k: int| #[trigger] splits(self.ord, self.nodes@, c, p, inclusive, k) && x == at(c, k - 1);
        if k >= 1 {
            assert(c[k - 1] == x);
        }
    }

    /// The last node before `(key, seq)`, which itself counts where
    /// `inclusive`; the head if there is none.
    fn descend(&self, key: &[u8], prefix: u64, seq: u64, inclusive: bool) -> (r: usize)
        requires
            self.valid(),
            prefix == crate::key_prefix::prefix_value(key@, 0),
        ensures
            is_last_before(self.ord, self.nodes@, self.order(), (key@, seq), inclusive, r as int),
            r < self.nodes@.len(),
    {
        let mut x: usize = 0;
        let mut level: usize = self.height;
        while level > 0
            invariant
                self.valid(),
                prefix == crate::key_prefix::prefix_value(key@, 0),
                level <= self.height,
                x < self.nodes@.len(),
                level == self.height ==> x == 0,
                level < self.height ==> is_last_before(self.ord, self.nodes@, self.chains@[level as int], (key@, seq), inclusive, x as int),
            decreases level,
        {
            proof {
                if level < self.height {
                    self.lemma_down(level as int, x as int, (key@, seq), inclusive);
                }
            }
            level -= 1;
            x = self.walk(level, x, key, prefix, seq, inclusive);
            proof {
                self.lemma_down(level as int, x as int, (key@, seq), inclusive);
            }
        }
        x
    }

    /// The nodes after which `(key, seq)` belongs, one for each level.
    fn predecessors(&self, key: &[u8], prefix: u64, seq: u64) -> (r: Vec<usize>)
        requires
            self.valid(),
            prefix == crate::key_prefix::prefix_value(key@, 0),
        ensures
            r@.len() == MAX_HEIGHT,
            forall|l: int|
                0 <= l < MAX_HEIGHT ==> is_last_before(self.ord, self.nodes@, #[trigger] self.chains@[l], (key@, seq), false, r@[l] as int),
    {
        let ghost p = (key@, seq);
        let mut preds: Vec<usize> = vec![0; MAX_HEIGHT];
        let mut x: usize = 0;
        let mut level: usize = self.height;
        proof {
            assert forall|l: int| level <= l < MAX_HEIGHT implies is_last_before(
                self.ord,
                self.nodes@,
                #[trigger] self.chains@[l],
                p,
                false,
                preds@[l] as int,
            ) by {
                assert(splits(self.ord, self.nodes@, self.chains@[l], p, false, 0));
            }
        }
        while level > 0
            invariant
                self.valid(),
                p == (key@, seq),
                prefix == crate::key_prefix::prefix_value(key@, 0),
                level <= self.height,
                x < self.nodes@.len(),
                level == self.height ==> x == 0,
                level < self.height ==> x == preds@[level as int],
                preds@.len() == MAX_HEIGHT,
                forall|l: int|
                    level <= l < MAX_HEIGHT ==> is_last_before(self.ord, self.nodes@, #[trigger] self.chains@[l], p, false, preds@[l] as int),
            decreases level,
        {
            proof {
                if level < self.height {
                    assert(is_last_before(self.ord, self.nodes@, self.chains@[level as int], p, false, preds@[level as int] as int));
                    self.lemma_down(level as int, x as int, p, false);
                }
            }
            level -= 1;
            x = self.walk(level, x, key, prefix, seq, false);
            proof {
                self.lemma_down(level as int, x as int, p, false);
            }
            preds.set(level, x);
        }
        preds
    }

    /// Store a version, in place of one that stands at the same place.
    pub fn put(&mut self, key: &[u8], value: &[u8], seq: u64, ttl: i64, flags: u8)
        requires
            old(self).valid(),
        ensures
            final(self).valid(),
            final(self).comparator() == old(self).comparator(),
            final(self).contents() == old(self).contents().insert((key@, seq), Payload { value: value@, ttl, flags }),
    {
        let ghost p = (key@, seq);
        let prefix = key_prefix8(key);
        let preds = self.predecessors(key, prefix, seq);
        proof {
            assert(is_last_before(self.ord, self.nodes@, self.chains@[0], p, false, preds@[0] as int));
            self.lemma_down(0, preds@[0] as int, p, false);
        }
        let ghost k0 = choose|k: int| #[trigger] splits(self.ord, self.nodes@, self.chains@[0], p, false, k) && preds@[0] == at(self.chains@[0], k - 1);
        proof {
            assert(chain_ok(self.ord, self.nodes@, self.chains@[0], 0, self.nodes@.len() as int));
            assert(linked(self.nodes@, self.chains@[0], 0, k0 - 1));
        }
        let cand = self.nodes[preds[0]].next[0];
        proof {
            if k0 < self.order().len() {
                assert(self.order()[k0] == cand);
            }
        }
        let ghost before = *self;
        if cand != 0 && self.compare_node(cand, key, prefix, seq).is_eq() {
            let v = copy_bytes(value);
            self.nodes[cand].value = v;
            self.nodes[cand].ttl = ttl;
            self.nodes[cand].flags = flags;
            proof {
                Self::lemma_replaced(before, *self, cand as int, Payload { value: value@, ttl, flags });
            }
        } else {
            proof {
                assert forall|i: int| 1 <= i < before.nodes@.len() implies #[trigger] place_at(before.nodes@, i) != p by {
                    before.lemma_node(i);
                    let c = before.order();
                    let j = choose|j: int| 0 <= j < c.len() && c[j] == i;
                    crate::place::lemma_places(before.ord, true);
                    assert(!crate::place::leads(before.ord, true, p, p));
                    if j < k0 {
                        assert(passes(before.ord, place_at(before.nodes@, c[j]), p, false));
                    } else if j > k0 {
                        assert(!passes(before.ord, place_at(before.nodes@, c[k0]), p, false));
                        assert(crate::place::leads(before.ord, true, place_at(before.nodes@, c[k0]), place_at(before.nodes@, c[j])));
                    } else {
                        assert(c[k0] == cand);
                    }
                }
            }
            self.insert_node(preds, key, prefix, value, seq, ttl, flags);
        }
    }

    proof fn lemma_replaced(s0: Self, s1: Self, i: int, w: Payload)
        requires
            s0.valid(),
            1 <= i < s0.nodes@.len(),
            s1.nodes@.len() == s0.nodes@.len(),
            forall|j: int| 0 <= j < s0.nodes@.len() && j != i ==> #[trigger] s1.nodes@[j] == s0.nodes@[j],
            s1.nodes@[i].key == s0.nodes@[i].key,
            s1.nodes@[i].seq == s0.nodes@[i].seq,
            s1.nodes@[i].next == s0.nodes@[i].next,
            s1.nodes@[i].prefix == s0.nodes@[i].prefix,
            payload_at(s1.nodes@, i) == w,
            s1.chains == s0.chains,
            s1.height == s0.height,
            s1.ord == s0.ord,
            s1.bytewise == s0.bytewise,
        ensures
            s1.valid(),
            s1.contents() == s0.contents().insert(place_at(s0.nodes@, i), w),
    {
        let p = place_at(s0.nodes@, i);
        assert forall|j: int| 0 <= j < s0.nodes@.len() implies #[trigger] place_at(s1.nodes@, j) == place_at(s0.nodes@, j) by {
            if j != i {
                assert(s1.nodes@[j] == s0.nodes@[j]);
            }
        }
        assert forall|j: int| 0 <= j < s0.nodes@.len() implies #[trigger] tower(s1.nodes@, j) == tower(s0.nodes@, j) by {
            if j != i {
                assert(s1.nodes@[j] == s0.nodes@[j]);
            }
        }
        assert forall|j: int, m: int| 0 <= j < s0.nodes@.len() implies #[trigger] succ(s1.nodes@, j, m) == succ(s0.nodes@, j, m) by {
            if j != i {
                assert(s1.nodes@[j] == s0.nodes@[j]);
            }
        }
        assert(s1.valid()) by {
            assert forall|l: int| 0 <= l < MAX_HEIGHT implies chain_ok(s1.ord, s1.nodes@, #[trigger] s1.chains@[l], l, s1.nodes@.len() as int) by {
                let c = s0.chains@[l];
                assert(chain_ok(s0.ord, s0.nodes@, c, l, s0.nodes@.len() as int));
                assert forall|k: int| -1 <= k < c.len() implies #[trigger] linked(s1.nodes@, c, l, k) by {
                    assert(linked(s0.nodes@, c, l, k));
                    if k >= 0 {
                        assert(c[k] >= 1);
                    }
                    assert(succ(s1.nodes@, at(c, k), l) == succ(s0.nodes@, at(c, k), l));
                }
                assert forall|k: int| 0 <= k < c.len() implies 1 <= #[trigger] c[k] < s0.nodes@.len() && tower(s1.nodes@, c[k]) > l by {
                    assert(tower(s1.nodes@, c[k]) == tower(s0.nodes@, c[k]));
                }
                assert forall|j: int, k: int| 0 <= j < k < c.len() implies crate::place::place_lt(
                    s1.ord,
                    place_at(s1.nodes@, #[trigger] c[j]),
                    place_at(s1.nodes@, #[trigger] c[k]),
                ) by {
                    assert(place_at(s1.nodes@, c[j]) == place_at(s0.nodes@, c[j]));
                    assert(place_at(s1.nodes@, c[k]) == place_at(s0.nodes@, c[k]));
                }
                assert forall|x: int| 1 <= x < s0.nodes@.len() && #[trigger] tower(s1.nodes@, x) > l implies c.contains(x) by {
                    assert(tower(s1.nodes@, x) == tower(s0.nodes@, x));
                }
            }
            assert forall|j: int| 1 <= j < s1.nodes@.len() implies 1 <= #[trigger] tower(s1.nodes@, j) <= MAX_HEIGHT by {
                assert(tower(s1.nodes@, j) == tower(s0.nodes@, j));
            }
            assert forall|j: int| 1 <= j < s1.nodes@.len() implies (#[trigger] s1.nodes@[j]).prefix == crate::key_prefix::prefix_value(
                s1.nodes@[j].key@,
                0,
            ) by {
                assert(s0.nodes@[j].prefix == crate::key_prefix::prefix_value(s0.nodes@[j].key@, 0));
            }
            assert(tower(s1.nodes@, 0) == tower(s0.nodes@, 0));
        }
        let m = s0.contents().insert(p, w);
        assert forall|q: Place| #[trigger] s1.contents().dom().contains(q) <==> m.dom().contains(q) by {
            if s1.contents().dom().contains(q) {
                let j = choose|j: int| is_node(s1.nodes@, q, j);
                assert(place_at(s1.nodes@, j) == place_at(s0.nodes@, j));
                s0.lemma_node(j);
            }
            if m.dom().contains(q) {
                if q == p {
                    s1.lemma_node(i);
                    assert(place_at(s1.nodes@, i) == p);
                } else {
                    let j = choose|j: int| is_node(s0.nodes@, q, j);
                    assert(place_at(s1.nodes@, j) == place_at(s0.nodes@, j));
                    s1.lemma_node(j);
                }
            }
        }
        assert forall|q: Place| s1.contents().dom().contains(q) implies #[trigger] s1.contents()[q] == m[q] by {
            let j = choose|j: int| is_node(s1.nodes@, q, j);
            assert(place_at(s1.nodes@, j) == place_at(s0.nodes@, j));
            s1.lemma_node(j);
            s0.lemma_node(j);
            s0.lemma_node(i);
            if j != i {
                assert(s1.nodes@[j] == s0.nodes@[j]);
                if q == p {
                    s0.lemma_same_place(i, j);
                }
            }
        }
        assert(s1.contents() =~= m);
    }

    proof fn lemma_same_place(self, i: int, j: int)
        requires
            self.valid(),
            1 <= i < self.nodes@.len(),
            1 <= j < self.nodes@.len(),
            place_at(self.nodes@, i) == place_at(self.nodes@, j),
        ensures
            i == j,
    {
        let c = self.order();
        assert(chain_ok(self.ord, self.nodes@, self.chains@[0], 0, self.nodes@.len() as int));
        self.lemma_node(i);
        self.lemma_node(j);
        let a = choose|a: int| 0 <= a < c.len() && c[a] == i;
        let b = choose|b: int| 0 <= b < c.len() && c[b] == j;
        crate::place::lemma_places(self.ord, true);
        if a < b {
            assert(crate::place::leads(self.ord, true, place_at(self.nodes@, c[a]), place_at(self.nodes@, c[b])));
        } else if b < a {
            assert(crate::place::leads(self.ord, true, place_at(self.nodes@, c[b]), place_at(self.nodes@, c[a])));
        }
    }

    /// Link a new node behind the nodes `preds`.
    #[verifier::rlimit(40)]
    fn insert_node(&mut self, preds: Vec<usize>, key: &[u8], prefix: u64, value: &[u8], seq: u64, ttl: i64, flags: u8)
        requires
            old(self).valid(),
            preds@.len() == MAX_HEIGHT,
            prefix == crate::key_prefix::prefix_value(key@, 0),
            forall|l: int|
                0 <= l < MAX_HEIGHT ==> is_last_before(
                    old(self).ord,
                    old(self).nodes@,
                    #[trigger] old(self).chains@[l],
                    (key@, seq),
                    false,
                    preds@[l] as int,
                ),
            forall|i: int| 1 <= i < old(self).nodes@.len() ==> #[trigger] place_at(old(self).nodes@, i) != (key@, seq),
        ensures
            final(self).valid(),
            final(self).ord == old(self).ord,
            final(self).contents() == old(self).contents().insert((key@, seq), Payload { value: value@, ttl, flags }),
    {
        let ghost p = (key@, seq);
        let ghost before = *self;
        let h = self.random_height();
        if h > self.height {
            self.height = h;
        }
        let n = self.nodes.len();
        let node = Node { prefix, seq, key: copy_bytes(key), value: copy_bytes(value), ttl, flags, next: vec![0; h] };
        self.nodes.push(node);
        let ghost base = self.nodes@;
        let ghost c0 = before.chains@;
        proof {
            assert(place_at(base, n as int) == p);
            assert forall|i: int| 0 <= i < n implies #[trigger] base[i] == before.nodes@[i] by {}
            assert forall|i: int| 1 <= i < n implies #[trigger] place_at(base, i) != p by {
                assert(place_at(before.nodes@, i) == place_at(base, i));
            }
            assert forall|l: int| 0 <= l < MAX_HEIGHT implies chain_ok(before.ord, base, #[trigger] c0[l], l, n as int) by {
                let c = c0[l];
                assert(chain_ok(before.ord, before.nodes@, before.chains@[l], l, n as int));
                assert forall|k: int| -1 <= k < c.len() implies #[trigger] linked(base, c, l, k) by {
                    assert(linked(before.nodes@, c, l, k));
                    if k >= 0 {
                        assert(c[k] >= 1);
                    }
                }
                assert forall|j: int, k: int| 0 <= j < k < c.len() implies crate::place::place_lt(
                    before.ord,
                    place_at(base, #[trigger] c[j]),
                    place_at(base, #[trigger] c[k]),
                ) by {
                    assert(base[c[j]] == before.nodes@[c[j]]);
                    assert(base[c[k]] == before.nodes@[c[k]]);
                }
                assert forall|k: int| 0 <= k < c.len() implies 1 <= #[trigger] c[k] < n && tower(base, c[k]) > l by {
                    assert(base[c[k]] == before.nodes@[c[k]]);
                }
                assert forall|i: int| 1 <= i < n && #[trigger] tower(base, i) > l implies c.contains(i) by {
                    assert(tower(before.nodes@, i) > l);
                }
            }
            assert forall|l: int| 0 <= l < MAX_HEIGHT implies is_last_before(before.ord, base, #[trigger] c0[l], p, false, preds@[l] as int) by {
                let c = c0[l];
                assert(chain_ok(before.ord, before.nodes@, before.chains@[l], l, n as int));
                let k = choose|k: int| #[trigger] splits(before.ord, before.nodes@, before.chains@[l], p, false, k) && preds@[l] == at(c, k - 1);
                assert forall|j: int| 0 <= j < c.len() implies #[trigger] place_at(base, c[j]) == place_at(before.nodes@, c[j]) by {
                    assert(1 <= c[j] < n);
                    assert(base[c[j]] == before.nodes@[c[j]]);
                }
                assert(splits(before.ord, base, c, p, false, k)) by {
                    assert forall|j: int| 0 <= j < k implies passes(before.ord, place_at(base, #[trigger] c[j]), p, false) by {
                        assert(place_at(base, c[j]) == place_at(before.nodes@, c[j]));
                    }
                    assert forall|j: int| k <= j < c.len() implies !passes(before.ord, place_at(base, #[trigger] c[j]), p, false) by {
                        assert(place_at(base, c[j]) == place_at(before.nodes@, c[j]));
                    }
                }
            }
            assert(tower(base, 0) == tower(before.nodes@, 0));
            assert(tower(base, n as int) == h);
        }
        let ghost mut cs = c0;
        let mut level: usize = 0;
        while level < h
            invariant
                level <= h <= MAX_HEIGHT,
                1 <= h,
                n >= 1,
                preds@.len() == MAX_HEIGHT,
                self.ord == before.ord,
                self.bytewise == before.bytewise,
                self.height == (if h > before.height { h } else { before.height }),
                base.len() == n + 1,
                self.nodes@.len() == n + 1,
                tower(base, 0) == MAX_HEIGHT,
                tower(base, n as int) == h,
                place_at(base, n as int) == p,
                cs.len() == MAX_HEIGHT,
                c0.len() == MAX_HEIGHT,
                forall|i: int| 1 <= i < n ==> #[trigger] place_at(base, i) != p,
                forall|i: int| 0 <= i <= n ==> #[trigger] place_at(self.nodes@, i) == place_at(base, i),
                forall|i: int| 0 <= i <= n ==> #[trigger] payload_at(self.nodes@, i) == payload_at(base, i),
                forall|i: int| 0 <= i <= n ==> #[trigger] tower(self.nodes@, i) == tower(base, i),
                forall|i: int| 0 <= i <= n ==> (#[trigger] self.nodes@[i]).prefix == base[i].prefix,
                forall|l: int| level <= l < MAX_HEIGHT ==> #[trigger] cs[l] == c0[l],
                forall|l: int| 0 <= l < level ==> chain_ok(self.ord, self.nodes@, #[trigger] cs[l], l, n + 1),
                forall|l: int| level <= l < MAX_HEIGHT ==> chain_ok(self.ord, self.nodes@, #[trigger] cs[l], l, n as int),
                forall|l: int| 0 <= l < MAX_HEIGHT ==> is_last_before(before.ord, base, #[trigger] c0[l], p, false, preds@[l] as int),
            decreases h - level,
        {
            let pred = preds[level];
            let ghost l = level as int;
            let ghost c = cs[l];
            let ghost n0 = self.nodes@;
            assert(c == c0[l]);
            assert(is_last_before(before.ord, base, c0[l], p, false, preds@[l] as int));
            let ghost k = choose|k: int| #[trigger] splits(before.ord, base, c, p, false, k) && pred == at(c, k - 1);
            proof {
                assert(chain_ok(self.ord, n0, c, l, n as int));
                assert(linked(n0, c, l, k - 1));
                if k >= 1 {
                    assert(c[k - 1] == pred);
                }
                assert(pred < n);
                assert(tower(n0, pred as int) > l);
                assert(splits(before.ord, n0, c, p, false, k)) by {
                    assert forall|j: int| 0 <= j < k implies passes(before.ord, place_at(n0, #[trigger] c[j]), p, false) by {
                        assert(place_at(n0, c[j]) == place_at(base, c[j]));
                    }
                    assert forall|j: int| k <= j < c.len() implies !passes(before.ord, place_at(n0, #[trigger] c[j]), p, false) by {
                        assert(place_at(n0, c[j]) == place_at(base, c[j]));
                    }
                }
                assert(tower(n0, n as int) == h);
                assert(tower(n0, 0) == tower(base, 0));
                assert(place_at(n0, n as int) == p);
                assert forall|i: int| 1 <= i < n implies #[trigger] place_at(n0, i) != place_at(n0, n as int) by {
                    assert(place_at(n0, i) == place_at(base, i));
                }
            }
            let after = self.nodes[pred].next[level];
            self.nodes[n].next[level] = after;
            self.nodes[pred].next[level] = n;
            proof {
                let n1 = self.nodes@;
                assert forall|i: int| 0 <= i <= n && i != n && i != pred implies #[trigger] n1[i] == n0[i] by {}
                assert(n1[n as int].next@ == n0[n as int].next@.update(l, after));
                assert(n1[pred as int].next@ == n0[pred as int].next@.update(l, n));
                assert(same_but(n0, n1, l, at(c, k - 1), n as int)) by {
                    assert forall|i: int| 0 <= i < n0.len() implies #[trigger] place_at(n1, i) == place_at(n0, i) by {
                        if i != n && i != pred {
                            assert(n1[i] == n0[i]);
                        }
                    }
                    assert forall|i: int| 0 <= i < n0.len() implies #[trigger] payload_at(n1, i) == payload_at(n0, i) by {
                        if i != n && i != pred {
                            assert(n1[i] == n0[i]);
                        }
                    }
                    assert forall|i: int| 0 <= i < n0.len() implies #[trigger] tower(n1, i) == tower(n0, i) by {
                        if i != n && i != pred {
                            assert(n1[i] == n0[i]);
                        }
                    }
                    assert forall|i: int| 0 <= i < n0.len() implies (#[trigger] n1[i]).prefix == n0[i].prefix by {}
                    assert forall|i: int, m: int| 0 <= i < n0.len() && 0 <= m < tower(n0, i) && !(m == l && (i == at(c, k - 1) || i == n)) implies #[trigger] succ(
                        n1,
                        i,
                        m,
                    ) == succ(n0, i, m) by {
                        if i != n && i != pred {
                            assert(n1[i] == n0[i]);
                        }
                    }
                }
                lemma_link_level(self.ord, n0, n1, c, l, k, n as int);
                let cs0 = cs;
                cs = cs.update(l, c.insert(k, n as int));
                assert forall|m: int| 0 <= m < l + 1 implies chain_ok(self.ord, n1, #[trigger] cs[m], m, n + 1) by {
                    if m < l {
                        assert(cs[m] == cs0[m]);
                        lemma_other_level(self.ord, n0, n1, cs0[m], m, n + 1, l, at(c, k - 1), n as int);
                    }
                }
                assert forall|m: int| l + 1 <= m < MAX_HEIGHT implies chain_ok(self.ord, n1, #[trigger] cs[m], m, n as int) by {
                    assert(cs[m] == cs0[m]);
                    lemma_other_level(self.ord, n0, n1, cs0[m], m, n as int, l, at(c, k - 1), n as int);
                }
                assert forall|i: int| 0 <= i <= n implies #[trigger] place_at(n1, i) == place_at(base, i) by {
                    assert(place_at(n0, i) == place_at(base, i));
                }
                assert forall|i: int| 0 <= i <= n implies #[trigger] payload_at(n1, i) == payload_at(base, i) by {
                    assert(payload_at(n0, i) == payload_at(base, i));
                }
                assert forall|i: int| 0 <= i <= n implies #[trigger] tower(n1, i) == tower(base, i) by {
                    assert(tower(n0, i) == tower(base, i));
                }
                assert forall|i: int| 0 <= i <= n implies (#[trigger] n1[i]).prefix == base[i].prefix by {
                    assert(n0[i].prefix == base[i].prefix);
                }
            }
            level += 1;
        }
        self.chains = Ghost(cs);
        proof {
            Self::lemma_inserted(before, *self, h as int, c0, base, p, Payload { value: value@, ttl, flags });
        }
    }

    proof fn lemma_inserted(s0: Self, s1: Self, h: int, c0: Seq<Seq<int>>, base: Seq<Node>, p: Place, w: Payload)
        requires
            s0.valid(),
            1 <= h <= MAX_HEIGHT,
            c0 == s0.chains@,
            base.len() == s0.nodes@.len() + 1,
            s1.nodes@.len() == base.len(),
            forall|i: int| 0 <= i < s0.nodes@.len() ==> #[trigger] base[i] == s0.nodes@[i],
            place_at(base, base.len() - 1) == p,
            payload_at(base, base.len() - 1) == w,
            tower(base, base.len() - 1) == h,
            base[base.len() - 1].prefix == crate::key_prefix::prefix_value(p.0, 0),
            forall|i: int| 1 <= i < s0.nodes@.len() ==> #[trigger] place_at(s0.nodes@, i) != p,
            forall|i: int| 0 <= i < base.len() ==> #[trigger] place_at(s1.nodes@, i) == place_at(base, i),
            forall|i: int| 0 <= i < base.len() ==> #[trigger] payload_at(s1.nodes@, i) == payload_at(base, i),
            forall|i: int| 0 <= i < base.len() ==> #[trigger] tower(s1.nodes@, i) == tower(base, i),
            forall|i: int| 0 <= i < base.len() ==> (#[trigger] s1.nodes@[i]).prefix == base[i].prefix,
            s1.chains@.len() == MAX_HEIGHT,
            forall|l: int| h <= l < MAX_HEIGHT ==> #[trigger] s1.chains@[l] == c0[l],
            forall|l: int| 0 <= l < h ==> chain_ok(s1.ord, s1.nodes@, #[trigger] s1.chains@[l], l, s1.nodes@.len() as int),
            forall|l: int| h <= l < MAX_HEIGHT ==> chain_ok(s1.ord, s1.nodes@, #[trigger] s1.chains@[l], l, s1.nodes@.len() - 1),
            s1.ord == s0.ord,
            s1.bytewise == s0.bytewise,
            s1.height == (if h > s0.height { h } else { s0.height as int }),
        ensures
            s1.valid(),
            s1.contents() == s0.contents().insert(p, w),
    {
        let n = s0.nodes@.len() as int;
        assert(s1.valid()) by {
            assert forall|l: int| 0 <= l < MAX_HEIGHT implies chain_ok(s1.ord, s1.nodes@, #[trigger] s1.chains@[l], l, s1.nodes@.len() as int) by {
                if l >= h {
                    let c = s1.chains@[l];
                    assert(chain_ok(s1.ord, s1.nodes@, c, l, n));
                    assert forall|i: int| 1 <= i < n + 1 && #[trigger] tower(s1.nodes@, i) > l implies c.contains(i) by {
                        assert(tower(s1.nodes@, i) == tower(base, i));
                    }
                    assert(chain_ok(s1.ord, s1.nodes@, c, l, n + 1));
                }
            }
            assert forall|i: int| 1 <= i < s1.nodes@.len() implies 1 <= #[trigger] tower(s1.nodes@, i) <= MAX_HEIGHT by {
                assert(tower(s1.nodes@, i) == tower(base, i));
                if i < n {
                    assert(base[i] == s0.nodes@[i]);
                    assert(1 <= tower(s0.nodes@, i) <= MAX_HEIGHT);
                }
            }
            assert forall|i: int| 1 <= i < s1.nodes@.len() implies (#[trigger] s1.nodes@[i]).prefix == crate::key_prefix::prefix_value(
                s1.nodes@[i].key@,
                0,
            ) by {
                assert(place_at(s1.nodes@, i) == place_at(base, i));
                if i < n {
                    assert(base[i] == s0.nodes@[i]);
                }
            }
            assert(tower(s1.nodes@, 0) == tower(base, 0));
            assert(base[0] == s0.nodes@[0]);
            assert forall|l: int| s1.height <= l < MAX_HEIGHT implies (#[trigger] s1.chains@[l]).len() == 0 by {
                assert(s1.chains@[l] == c0[l]);
                assert(s0.chains@[l].len() == 0);
            }
        }
        let m = s0.contents().insert(p, w);
        assert forall|q: Place| #[trigger] s1.contents().dom().contains(q) <==> m.dom().contains(q) by {
            if s1.contents().dom().contains(q) {
                let j = choose|j: int| is_node(s1.nodes@, q, j);
                assert(place_at(s1.nodes@, j) == place_at(base, j));
                if j < n {
                    assert(base[j] == s0.nodes@[j]);
                    s0.lemma_node(j);
                }
            }
            if m.dom().contains(q) {
                if q == p {
                    assert(place_at(s1.nodes@, n) == place_at(base, n));
                    s1.lemma_node(n);
                } else {
                    let j = choose|j: int| is_node(s0.nodes@, q, j);
                    assert(base[j] == s0.nodes@[j]);
                    assert(place_at(s1.nodes@, j) == place_at(base, j));
                    s1.lemma_node(j);
                }
            }
        }
        assert forall|q: Place| s1.contents().dom().contains(q) implies #[trigger] s1.contents()[q] == m[q] by {
            let j = choose|j: int| is_node(s1.nodes@, q, j);
            s1.lemma_node(j);
            assert(place_at(s1.nodes@, j) == place_at(base, j));
            assert(payload_at(s1.nodes@, j) == payload_at(base, j));
            if j < n {
                assert(base[j] == s0.nodes@[j]);
                assert(place_at(s0.nodes@, j) != p);
                s0.lemma_node(j);
            }
        }
        assert(s1.contents() =~= m);
    }

    /// The place of a node; nothing for 0.
    spec fn spot(self, i: int) -> Option<Place> {
        if i == 0 { None } else { Some(place_at(self.nodes@, i)) }
    }

    proof fn lemma_dom(self, p: Place)
        requires
            self.valid(),
            self.contents().dom().contains(p),
        ensures
            exists|j: int| 0 <= j < self.order().len() && place_at(self.nodes@, #[trigger] self.order()[j]) == p,
    {
        let i = choose|i: int| is_node(self.nodes@, p, i);
        self.lemma_node(i);
        let k = choose|k: int| 0 <= k < self.order().len() && self.order()[k] == i;
        assert(place_at(self.nodes@, self.order()[k]) == p);
    }

    proof fn lemma_spot(self, j: int)
        requires
            self.valid(),
            0 <= j < self.order().len(),
        ensures
            1 <= self.order()[j] < self.nodes@.len(),
            self.contents().dom().contains(place_at(self.nodes@, self.order()[j])),
    {
        assert(chain_ok(self.ord, self.nodes@, self.chains@[0], 0, self.nodes@.len() as int));
        self.lemma_node(self.order()[j]);
    }

    proof fn lemma_split(self, p: Place, inclusive: bool, k: int)
        requires
            self.valid(),
            splits(self.ord, self.nodes@, self.order(), p, inclusive, k),
        ensures
            crate::place::first_of(
                self.ord,
                true,
                crate::place::beyond(self.ord, true, self.contents().dom(), p, !inclusive),
                self.spot(at(self.order(), k)),
            ),
            crate::place::first_of(
                self.ord,
                false,
                crate::place::beyond(self.ord, false, self.contents().dom(), p, inclusive),
                self.spot(at(self.order(), k - 1)),
            ),
    {
        let c = self.order();
        let dom = self.contents().dom();
        let nodes = self.nodes@;
        assert(chain_ok(self.ord, nodes, self.chains@[0], 0, nodes.len() as int));
        crate::place::lemma_places(self.ord, true);
        let up = crate::place::beyond(self.ord, true, dom, p, !inclusive);
        let down = crate::place::beyond(self.ord, false, dom, p, inclusive);
        assert forall|x: Place| #[trigger] up.contains(x) implies exists|j: int| k <= j < c.len() && place_at(nodes, #[trigger] c[j]) == x by {
            self.lemma_dom(x);
            let j = choose|j: int| 0 <= j < c.len() && place_at(nodes, #[trigger] c[j]) == x;
            assert(crate::place::leads(self.ord, true, p, x) || (!inclusive && x == p));
            if j < k {
                assert(passes(self.ord, place_at(nodes, c[j]), p, inclusive));
                assert(crate::place::leads(self.ord, true, x, p) || x == p);
            }
        }
        assert forall|x: Place| #[trigger] down.contains(x) implies exists|j: int| 0 <= j < k && place_at(nodes, #[trigger] c[j]) == x by {
            self.lemma_dom(x);
            let j = choose|j: int| 0 <= j < c.len() && place_at(nodes, #[trigger] c[j]) == x;
            if j >= k {
                assert(!passes(self.ord, place_at(nodes, c[j]), p, inclusive));
            }
        }
        if k < c.len() {
            self.lemma_spot(k);
            let q = place_at(nodes, c[k]);
            assert(!passes(self.ord, q, p, inclusive));
            assert(q == p || crate::place::leads(self.ord, true, q, p) || crate::place::leads(self.ord, true, p, q));
            assert(up.contains(q));
            assert forall|x: Place| #[trigger] up.contains(x) implies !crate::place::leads(self.ord, true, x, q) by {
                let j = choose|j: int| k <= j < c.len() && place_at(nodes, #[trigger] c[j]) == x;
                if j > k {
                    assert(crate::place::leads(self.ord, true, place_at(nodes, c[k]), place_at(nodes, c[j])));
                }
            }
        }
        if k >= 1 {
            self.lemma_spot(k - 1);
            let q = place_at(nodes, c[k - 1]);
            assert(passes(self.ord, q, p, inclusive));
            assert(down.contains(q));
            assert forall|x: Place| #[trigger] down.contains(x) implies !crate::place::leads(self.ord, false, x, q) by {
                let j = choose|j: int| 0 <= j < k && place_at(nodes, #[trigger] c[j]) == x;
                if j < k - 1 {
                    assert(crate::place::leads(self.ord, true, place_at(nodes, c[j]), place_at(nodes, c[k - 1])));
                }
                assert(!crate::place::leads(self.ord, true, q, x));
            }
        }
    }

    /// The first node at or after `(key, seq)`, or strictly after it; 0 if
    /// there is none.
    fn find_from(&self, key: &[u8], prefix: u64, seq: u64, inclusive: bool) -> (r: usize)
        requires
            self.valid(),
            prefix == crate::key_prefix::prefix_value(key@, 0),
        ensures
            r < self.nodes@.len(),
            crate::place::first_of(
                self.ord,
                true,
                crate::place::beyond(self.ord, true, self.contents().dom(), (key@, seq), inclusive),
                self.spot(r as int),
            ),
    {
        let past = !inclusive;
        let x = self.descend(key, prefix, seq, past);
        let ghost c = self.order();
        let ghost k = choose|k: int| #[trigger] splits(self.ord, self.nodes@, c, (key@, seq), past, k) && x == at(c, k - 1);
        proof {
            self.lemma_down(0, x as int, (key@, seq), !inclusive);
            self.lemma_split((key@, seq), !inclusive, k);
            assert(chain_ok(self.ord, self.nodes@, self.chains@[0], 0, self.nodes@.len() as int));
            assert(linked(self.nodes@, c, 0, k - 1));
            if k < c.len() {
                self.lemma_spot(k);
            }
        }
        self.nodes[x].next[0]
    }

    /// The first node at or after `(key, seq)`.
    fn find_ge(&self, key: &[u8], prefix: u64, seq: u64) -> (r: usize)
        requires
            self.valid(),
            prefix == crate::key_prefix::prefix_value(key@, 0),
        ensures
            r < self.nodes@.len(),
            crate::place::first_of(
                self.ord,
                true,
                crate::place::beyond(self.ord, true, self.contents().dom(), (key@, seq), true),
                self.spot(r as int),
            ),
    {
        self.find_from(key, prefix, seq, true)
    }

    /// The first node after `(key, seq)`.
    fn find_gt(&self, key: &[u8], prefix: u64, seq: u64) -> (r: usize)
        requires
            self.valid(),
            prefix == crate::key_prefix::prefix_value(key@, 0),
        ensures
            r < self.nodes@.len(),
            crate::place::first_of(
                self.ord,
                true,
                crate::place::beyond(self.ord, true, self.contents().dom(), (key@, seq), false),
                self.spot(r as int),
            ),
    {
        self.find_from(key, prefix, seq, false)
    }

    fn find_back(&self, key: &[u8], prefix: u64, seq: u64, inclusive: bool) -> (r: usize)
        requires
            self.valid(),
            prefix == crate::key_prefix::prefix_value(key@, 0),
        ensures
            r < self.nodes@.len(),
            crate::place::first_of(
                self.ord,
                false,
                crate::place::beyond(self.ord, false, self.contents().dom(), (key@, seq), inclusive),
                self.spot(r as int),
            ),
    {
        let x = self.descend(key, prefix, seq, inclusive);
        let ghost c = self.order();
        let ghost k = choose|k: int| #[trigger] splits(self.ord, self.nodes@, c, (key@, seq), inclusive, k) && x == at(c, k - 1);
        proof {
            self.lemma_split((key@, seq), inclusive, k);
        }
        x
    }

    /// The last node at or before `(key, seq)`.
    fn find_le(&self, key: &[u8], prefix: u64, seq: u64) -> (r: usize)
        requires
            self.valid(),
            prefix == crate::key_prefix::prefix_value(key@, 0),
        ensures
            r < self.nodes@.len(),
            crate::place::first_of(
                self.ord,
                false,
                crate::place::beyond(self.ord, false, self.contents().dom(), (key@, seq), true),
                self.spot(r as int),
            ),
    {
        self.find_back(key, prefix, seq, true)
    }

    /// The last node before `(key, seq)`.
    fn find_lt(&self, key: &[u8], prefix: u64, seq: u64) -> (r: usize)
        requires
            self.valid(),
            prefix == crate::key_prefix::prefix_value(key@, 0),
        ensures
            r < self.nodes@.len(),
            crate::place::first_of(
                self.ord,
                false,
                crate::place::beyond(self.ord, false, self.contents().dom(), (key@, seq), false),
                self.spot(r as int),
            ),
    {
        self.find_back(key, prefix, seq, false)
    }

    /// The last node of all; 0 if there is none.
    fn find_last(&self) -> (r: usize)
        requires
            self.valid(),
        ensures
            r < self.nodes@.len(),
            crate::place::first_of(self.ord, false, self.contents().dom(), self.spot(r as int)),
    {
        let mut x: usize = 0;
        let mut level: usize = self.height;
        while level > 0
            invariant
                self.valid(),
                level <= self.height,
                x < self.nodes@.len(),
                level == self.height ==> x == 0,
                level < self.height ==> x == at(self.chains@[level as int], self.chains@[level as int].len() - 1),
            decreases level,
        {
            let ghost above = level as int;
            level -= 1;
            let ghost c = self.chains@[level as int];
            let ghost nodes = self.nodes@;
            let ghost mut k: int = 0;
            proof {
                assert(chain_ok(self.ord, nodes, c, level as int, nodes.len() as int));
                if x != 0 {
                    let up = self.chains@[above];
                    assert(chain_ok(self.ord, nodes, up, above, nodes.len() as int));
                    assert(up[up.len() - 1] == x);
                    assert(tower(nodes, x as int) > level);
                    assert(c.contains(x as int));
                    k = choose|a: int| 0 <= a < c.len() && c[a] == x;
                    k = k + 1;
                }
                assert(linked(nodes, c, level as int, k - 1));
            }
            while self.nodes[x].next[level] != 0
                invariant
                    self.valid(),
                    level < MAX_HEIGHT,
                    nodes == self.nodes@,
                    c == self.chains@[level as int],
                    chain_ok(self.ord, nodes, c, level as int, nodes.len() as int),
                    0 <= k <= c.len(),
                    x == at(c, k - 1),
                    x < nodes.len(),
                    tower(nodes, x as int) > level,
                    linked(nodes, c, level as int, k - 1),
                decreases c.len() - k,
            {
                x = self.nodes[x].next[level];
                proof {
                    assert(k < c.len());
                    assert(c[k] == x);
                    k = k + 1;
                    assert(linked(nodes, c, level as int, k - 1));
                }
            }
            proof {
                if k < c.len() {
                    assert(c[k] >= 1);
                }
            }
        }
        proof {
            let c = self.order();
            let n = c.len() as int;
            let nodes = self.nodes@;
            assert(chain_ok(self.ord, nodes, self.chains@[0], 0, nodes.len() as int));
            crate::place::lemma_places(self.ord, true);
            assert forall|p: Place| #[trigger] self.contents().dom().contains(p) implies n > 0 && !crate::place::leads(
                self.ord,
                false,
                p,
                place_at(nodes, c[n - 1]),
            ) by {
                self.lemma_dom(p);
                let j = choose|j: int| 0 <= j < c.len() && place_at(nodes, #[trigger] c[j]) == p;
                if j < n - 1 {
                    assert(crate::place::leads(self.ord, true, place_at(nodes, c[j]), place_at(nodes, c[n - 1])));
                }
            }
            if n > 0 {
                self.lemma_spot(n - 1);
            }
        }
        x
    }

    /// The first node of all; 0 if there is none.
    fn find_first(&self) -> (r: usize)
        requires
            self.valid(),
        ensures
            r < self.nodes@.len(),
            r == at(self.order(), 0),
            crate::place::first_of(self.ord, true, self.contents().dom(), self.spot(r as int)),
    {
        let ghost c = self.order();
        let ghost nodes = self.nodes@;
        proof {
            assert(chain_ok(self.ord, nodes, self.chains@[0], 0, nodes.len() as int));
            assert(linked(nodes, c, 0, -1));
            crate::place::lemma_places(self.ord, true);
            assert forall|p: Place| #[trigger] self.contents().dom().contains(p) implies c.len() > 0 && !crate::place::leads(
                self.ord,
                true,
                p,
                place_at(nodes, c[0]),
            ) by {
                self.lemma_dom(p);
                let j = choose|j: int| 0 <= j < c.len() && place_at(nodes, #[trigger] c[j]) == p;
                if j > 0 {
                    assert(crate::place::leads(self.ord, true, place_at(nodes, c[0]), place_at(nodes, c[j])));
                }
            }
            if c.len() > 0 {
                self.lemma_spot(0);
            }
        }
        self.nodes[0].next[0]
    }

    /// What a read of `key` at `read_seq` and `now` finds.
    pub fn get(&self, key: &[u8], read_seq: u64, now: i64) -> (r: Lookup)
        requires
            self.valid(),
        ensures
            crate::memtable::is_lookup(self.contents(), key@, read_seq, now, r),
    {
        let cand = self.find_ge(key, key_prefix8(key), read_seq);
        proof {
            crate::memtable::lemma_first_is_visible(self.ord, self.contents().dom(), key@, read_seq, self.spot(cand as int));
        }
        if cand == 0 {
            return Lookup::default();
        }
        let node = &self.nodes[cand];
        proof {
            crate::comparator::lemma_order(self.ord);
            assert(self.ord.le(key@, key@));
            if self.ord.le(node.key@, key@) && self.ord.le(key@, node.key@) {
                self.ord.lemma_antisymmetric(node.key@, key@);
            }
            self.lemma_node(cand as int);
        }
        if !self.ord.compare(node.key.as_slice(), key).is_eq() {
            return Lookup::default();
        }
        if node.flags & crate::flags::TOMBSTONE != 0 || (node.ttl != 0 && node.ttl <= now) {
            return Lookup { value: Vec::new(), seq: node.seq, found: true, deleted: true };
        }
        Lookup { value: copy_bytes(node.value.as_slice()), seq: node.seq, found: true, deleted: false }
    }

    fn entry_at(&self, i: usize) -> (r: Entry)
        requires
            self.valid(),
            1 <= i < self.nodes@.len(),
        ensures
            crate::memtable::is_entry(self.contents(), r),
            crate::memtable::entry_place(r) == place_at(self.nodes@, i as int),
    {
        proof {
            self.lemma_node(i as int);
        }
        let node = &self.nodes[i];
        Entry {
            user_key: copy_bytes(node.key.as_slice()),
            value: copy_bytes(node.value.as_slice()),
            seq: node.seq,
            ttl: node.ttl,
            tombstone: node.flags & crate::flags::TOMBSTONE != 0,
            single_delete: node.flags & crate::flags::SINGLE_DELETE != 0,
        }
    }

    /// All versions, in order.
    pub fn collect(&self) -> (r: Vec<Entry>)
        requires
            self.valid(),
        ensures
            crate::memtable::lists(self.comparator(), self.contents(), r@),
    {
        let mut out: Vec<Entry> = Vec::new();
        let mut x = self.find_first();
        let ghost c = self.order();
        let ghost nodes = self.nodes@;
        assert(chain_ok(self.ord, nodes, self.chains@[0], 0, nodes.len() as int));
        while x != 0
            invariant
                self.valid(),
                nodes == self.nodes@,
                c == self.order(),
                chain_ok(self.ord, nodes, c, 0, nodes.len() as int),
                out@.len() <= c.len(),
                x == at(c, out@.len() as int),
                forall|i: int| 0 <= i < out@.len() ==> crate::memtable::is_entry(self.contents(), #[trigger] out@[i]),
                forall|i: int| 0 <= i < out@.len() ==> crate::memtable::entry_place(#[trigger] out@[i]) == place_at(nodes, c[i]),
            decreases c.len() - out@.len(),
        {
            let ghost k = out@.len() as int;
            proof {
                assert(k < c.len());
                self.lemma_spot(k);
                assert(linked(nodes, c, 0, k));
            }
            out.push(self.entry_at(x));
            x = self.nodes[x].next[0];
        }
        proof {
            let n = out@.len() as int;
            if n < c.len() {
                assert(c[n] >= 1);
            }
            assert forall|i: int, j: int| 0 <= i < j < n implies crate::place::place_lt(
                self.ord,
                crate::memtable::entry_place(#[trigger] out@[i]),
                crate::memtable::entry_place(#[trigger] out@[j]),
            ) by {
                assert(crate::place::place_lt(self.ord, place_at(nodes, c[i]), place_at(nodes, c[j])));
            }
            assert forall|p: Place| #[trigger] self.contents().dom().contains(p) implies exists|i: int|
                0 <= i < n && crate::memtable::entry_place(#[trigger] out@[i]) == p by {
                self.lemma_dom(p);
                let j = choose|j: int| 0 <= j < c.len() && place_at(nodes, #[trigger] c[j]) == p;
                assert(crate::memtable::entry_place(out@[j]) == p);
            }
        }
        out
    }

    /// Store the writes at `group`, in that order.
    pub fn put_group(&mut self, recs: &[RecordRef<'_>], group: &[u32])
        requires
            old(self).valid(),
            forall|i: int| 0 <= i < group@.len() ==> (#[trigger] group@[i]) < recs@.len(),
        ensures
            final(self).valid(),
            final(self).comparator() == old(self).comparator(),
            final(self).contents() == crate::memtable::after_records(old(self).contents(), crate::memtable::picked(recs@, group@)),
    {
        let ghost all = crate::memtable::picked(recs@, group@);
        let mut i: usize = 0;
        assert(all.take(0) =~= Seq::empty());
        while i < group.len()
            invariant
                i <= group@.len(),
                self.valid(),
                self.comparator() == old(self).comparator(),
                all == crate::memtable::picked(recs@, group@),
                forall|j: int| 0 <= j < group@.len() ==> (#[trigger] group@[j]) < recs@.len(),
                self.contents() == crate::memtable::after_records(old(self).contents(), all.take(i as int)),
            decreases group@.len() - i,
        {
            assert(group@[i as int] < recs@.len());
            let r = &recs[group[i] as usize];
            self.put(r.key, r.value, r.seq, r.ttl, flag_bits(r.tombstone, r.single_delete, r.ttl));
            proof {
                assert(all[i as int] == *r);
                assert(all.take(i + 1).drop_last() =~= all.take(i as int));
            }
            i += 1;
        }
        assert(all.take(all.len() as int) =~= all);
    }

    fn item_at(&self, i: usize) -> (r: Option<Item>)
        requires
            self.valid(),
            i < self.nodes@.len(),
        ensures
            crate::place::place_of(r) == self.spot(i as int),
            r matches Some(x) ==> self.contents().dom().contains(x.place()) && self.contents()[x.place()] == x.payload(),
    {
        if i == 0 {
            return None;
        }
        proof {
            self.lemma_node(i as int);
        }
        let node = &self.nodes[i];
        Some(
            Item {
                key: copy_bytes(node.key.as_slice()),
                seq: node.seq,
                value: copy_bytes(node.value.as_slice()),
                ttl: node.ttl,
                flags: node.flags,
            },
        )
    }

    /// The first version in one direction.
    pub fn end(&self, forward: bool) -> (r: Option<Item>)
        requires
            self.valid(),
        ensures
            crate::place::first_item(self.comparator(), forward, self.contents(), self.contents().dom(), r),
    {
        let i = if forward { self.find_first() } else { self.find_last() };
        self.item_at(i)
    }

    /// The first version in one direction that comes after `(key, seq)`, which
    /// itself counts where `inclusive`.
    pub fn find(&self, forward: bool, key: &[u8], seq: u64, inclusive: bool) -> (r: Option<Item>)
        requires
            self.valid(),
        ensures
            crate::place::first_item(
                self.comparator(),
                forward,
                self.contents(),
                crate::place::beyond(self.comparator(), forward, self.contents().dom(), (key@, seq), inclusive),
                r,
            ),
    {
        let prefix = key_prefix8(key);
        let i = if forward { self.find_from(key, prefix, seq, inclusive) } else { self.find_back(key, prefix, seq, inclusive) };
        self.item_at(i)
    }

    /// A cursor at the first version.
    pub fn cursor(&self) -> (r: ShardCursor<'_, C>)
        requires
            self.valid(),
        ensures
            r.on(*self),
            crate::place::first_of(self.comparator(), true, self.contents().dom(), r.place()),
    {
        ShardCursor { shard: self, node: self.find_first() }
    }

    /// A cursor at the first version at or after `(key, seq)`.
    pub fn cursor_ge(&self, key: &[u8], seq: u64) -> (r: ShardCursor<'_, C>)
        requires
            self.valid(),
        ensures
            r.on(*self),
            crate::place::first_of(
                self.comparator(),
                true,
                crate::place::beyond(self.comparator(), true, self.contents().dom(), (key@, seq), true),
                r.place(),
            ),
    {
        ShardCursor { shard: self, node: self.find_ge(key, key_prefix8(key), seq) }
    }

    /// A cursor at the first version after `(key, seq)`.
    pub fn cursor_gt(&self, key: &[u8], seq: u64) -> (r: ShardCursor<'_, C>)
        requires
            self.valid(),
        ensures
            r.on(*self),
            crate::place::first_of(
                self.comparator(),
                true,
                crate::place::beyond(self.comparator(), true, self.contents().dom(), (key@, seq), false),
                r.place(),
            ),
    {
        ShardCursor { shard: self, node: self.find_gt(key, key_prefix8(key), seq) }
    }

    /// A cursor at the last version at or before `(key, seq)`.
    pub fn cursor_le(&self, key: &[u8], seq: u64) -> (r: ShardCursor<'_, C>)
        requires
            self.valid(),
        ensures
            r.on(*self),
            crate::place::first_of(
                self.comparator(),
                false,
                crate::place::beyond(self.comparator(), false, self.contents().dom(), (key@, seq), true),
                r.place(),
            ),
    {
        ShardCursor { shard: self, node: self.find_le(key, key_prefix8(key), seq) }
    }

    /// A cursor at the last version before `(key, seq)`.
    pub fn cursor_lt(&self, key: &[u8], seq: u64) -> (r: ShardCursor<'_, C>)
        requires
            self.valid(),
        ensures
            r.on(*self),
            crate::place::first_of(
                self.comparator(),
                false,
                crate::place::beyond(self.comparator(), false, self.contents().dom(), (key@, seq), false),
                r.place(),
            ),
    {
        ShardCursor { shard: self, node: self.find_lt(key, key_prefix8(key), seq) }
    }

    /// A cursor at the last version.
    pub fn cursor_last(&self) -> (r: ShardCursor<'_, C>)
        requires
            self.valid(),
        ensures
            r.on(*self),
            crate::place::first_of(self.comparator(), false, self.contents().dom(), r.place()),
    {
        ShardCursor { shard: self, node: self.find_last() }
    }
}

/// Walks one shard in order.
pub struct ShardCursor<'a, C: KeyComparator> {
    shard: &'a ArenaShard<C>,
    node: usize,
}

impl<'a, C: KeyComparator> ShardCursor<'a, C> {
    /// Whether the cursor walks `s`.
    pub closed spec fn on(self, s: ArenaShard<C>) -> bool {
        *self.shard == s && s.valid() && self.node < s.nodes@.len()
    }

    /// The shard that the cursor walks.
    pub closed spec fn walked(self) -> ArenaShard<C> {
        *self.shard
    }

    /// Where the cursor stands; nothing past the end.
    pub closed spec fn place(self) -> Option<Place> {
        self.shard.spot(self.node as int)
    }

    /// What is stored there.
    pub open spec fn payload(self) -> Payload {
        self.walked().contents()[self.place()->0]
    }

    /// Whether the cursor stands at a version.
    pub fn valid(&self) -> (r: bool)
        requires
            self.on(self.walked()),
        ensures
            r == self.place() is Some,
    {
        self.node != 0
    }

    /// Step to the next version.
    pub fn advance(&mut self)
        requires
            old(self).on(old(self).walked()),
            old(self).place() is Some,
        ensures
            final(self).on(old(self).walked()),
            final(self).walked() == old(self).walked(),
            crate::place::first_of(
                old(self).walked().comparator(),
                true,
                crate::place::beyond(
                    old(self).walked().comparator(),
                    true,
                    old(self).walked().contents().dom(),
                    old(self).place()->0,
                    false,
                ),
                final(self).place(),
            ),
    {
        let ghost s = *self.shard;
        let ghost c = s.order();
        let ghost p = self.place()->0;
        let ghost k = choose|k: int| 0 <= k < c.len() && c[k] == self.node;
        proof {
            s.lemma_node(self.node as int);
            assert(chain_ok(s.ord, s.nodes@, s.chains@[0], 0, s.nodes@.len() as int));
            assert(linked(s.nodes@, c, 0, k));
            crate::place::lemma_places(s.ord, true);
            assert(splits(s.ord, s.nodes@, c, p, true, k + 1)) by {
                assert forall|j: int| 0 <= j < k + 1 implies passes(s.ord, place_at(s.nodes@, #[trigger] c[j]), p, true) by {
                    if j < k {
                        assert(crate::place::place_lt(s.ord, place_at(s.nodes@, c[j]), place_at(s.nodes@, c[k])));
                    }
                }
                assert forall|j: int| k + 1 <= j < c.len() implies !passes(s.ord, place_at(s.nodes@, #[trigger] c[j]), p, true) by {
                    assert(crate::place::leads(s.ord, true, place_at(s.nodes@, c[k]), place_at(s.nodes@, c[j])));
                }
            }
            s.lemma_split(p, true, k + 1);
            if k + 1 < c.len() {
                s.lemma_spot(k + 1);
            }
        }
        self.node = self.shard.nodes[self.node].next[0];
    }

    /// The first eight bytes of the key.
    pub fn key_prefix(&self) -> (r: u64)
        requires
            self.on(self.walked()),
            self.place() is Some,
        ensures
            r == crate::key_prefix::prefix_value((self.place()->0).0, 0),
    {
        self.shard.nodes[self.node].prefix
    }

    pub fn user_key(&self) -> (r: &'a [u8])
        requires
            self.on(self.walked()),
            self.place() is Some,
        ensures
            r@ == (self.place()->0).0,
    {
        self.shard.nodes[self.node].key.as_slice()
    }

    pub fn value(&self) -> (r: &'a [u8])
        requires
            self.on(self.walked()),
            self.place() is Some,
        ensures
            r@ == self.payload().value,
    {
        proof {
            self.shard.lemma_node(self.node as int);
        }
        self.shard.nodes[self.node].value.as_slice()
    }

    pub fn seq(&self) -> (r: u64)
        requires
            self.on(self.walked()),
            self.place() is Some,
        ensures
            r == (self.place()->0).1,
    {
        self.shard.nodes[self.node].seq
    }

    pub fn ttl(&self) -> (r: i64)
        requires
            self.on(self.walked()),
            self.place() is Some,
        ensures
            r == self.payload().ttl,
    {
        proof {
            self.shard.lemma_node(self.node as int);
        }
        self.shard.nodes[self.node].ttl
    }

    pub fn tombstone(&self) -> (r: bool)
        requires
            self.on(self.walked()),
            self.place() is Some,
        ensures
            r == (self.payload().flags & crate::flags::TOMBSTONE != 0),
    {
        proof {
            self.shard.lemma_node(self.node as int);
        }
        self.shard.nodes[self.node].flags & crate::flags::TOMBSTONE != 0
    }

    pub fn single_delete(&self) -> (r: bool)
        requires
            self.on(self.walked()),
            self.place() is Some,
        ensures
            r == (self.payload().flags & crate::flags::SINGLE_DELETE != 0),
    {
        proof {
            self.shard.lemma_node(self.node as int);
        }
        self.shard.nodes[self.node].flags & crate::flags::SINGLE_DELETE != 0
    }
}

} // verus!
