//! An index laid out as a tree of nodes, and its walk.

use vstd::prelude::*;

use crate::encoding::{append_slice, append_uvarint, copy_bytes};
use crate::error::OndaError;
use crate::reader::{take_prefixed, take_uvarint};
use crate::sst_format::BlockHandle;
use crate::sst_index::{IndexEntry, BTREE_FANOUT};

verus! {

/// A child of an internal node: its last separator, and where it stands.
#[derive(Debug)]
pub struct Child {
    pub separator: Vec<u8>,
    pub handle: BlockHandle,
}

#[verifier::ext_equal]
pub struct ChildView {
    pub separator: Seq<u8>,
    pub handle: BlockHandle,
}

impl View for Child {
    type V = ChildView;

    open spec fn view(&self) -> ChildView {
        ChildView { separator: self.separator@, handle: self.handle }
    }
}

pub open spec fn child_views(v: Seq<Child>) -> Seq<ChildView> {
    v.map_values(|c: Child| c@)
}

pub open spec fn handles_of(v: Seq<ChildView>) -> Seq<BlockHandle> {
    v.map_values(|c: ChildView| c.handle)
}

/// What a node holds.
#[verifier::ext_equal]
pub enum NodeView {
    Leaf(Seq<crate::sst_index::IndexView>),
    Internal(Seq<BlockHandle>),
}

// ---------------------------------------------------------------------------
// Nodes as bytes
// ---------------------------------------------------------------------------

pub open spec fn leaf_wire(v: Seq<crate::sst_index::IndexView>) -> Seq<u8> {
    seq![1u8] + (crate::encoding::uvarint_bytes(v.len()) + crate::sst_index::index_entries_wire(v))
}

pub open spec fn child_wire(c: ChildView) -> Seq<u8> {
    crate::edit_codec::bytes_wire(c.separator) + crate::sst_index::numbers_wire(c.handle)
}

pub open spec fn children_wire(v: Seq<ChildView>) -> Seq<u8>
    decreases v.len(),
{
    if v.len() == 0 { Seq::empty() } else { children_wire(v.drop_last()) + child_wire(v.last()) }
}

/// The smallest key, in the root.
pub open spec fn root_wire(min_key: Option<Seq<u8>>) -> Seq<u8> {
    match min_key {
        None => Seq::empty(),
        Some(k) => crate::edit_codec::bytes_wire(k),
    }
}

pub open spec fn internal_wire(min_key: Option<Seq<u8>>, v: Seq<ChildView>) -> Seq<u8> {
    seq![0u8] + (root_wire(min_key) + (crate::encoding::uvarint_bytes(v.len()) + children_wire(v)))
}

/// A leaf that holds the entries `from..to`.
pub fn encode_leaf(v: &Vec<IndexEntry>, from: usize, to: usize) -> (r: Vec<u8>)
    requires
        from <= to <= v@.len(),
    ensures
        r@ == leaf_wire(crate::sst_index::index_views(v@).subrange(from as int, to as int)),
{
    let mut b: Vec<u8> = Vec::new();
    b.push(1);
    append_uvarint(&mut b, (to - from) as u64);
    crate::sst_index::append_index_entries(&mut b, v, from, to);
    assert(b@ =~= leaf_wire(crate::sst_index::index_views(v@).subrange(from as int, to as int)));
    b
}

fn append_child(b: &mut Vec<u8>, c: &Child)
    ensures
        final(b)@ == old(b)@ + child_wire(c@),
{
    let ghost b0 = b@;
    append_uvarint(b, c.separator.len() as u64);
    append_slice(b, c.separator.as_slice());
    crate::sst_index::append_handle(b, c.handle);
    assert(b@ =~= b0 + child_wire(c@));
}

/// An internal node over the children `from..to`; the root where it is given
/// the smallest key of the table.
pub fn encode_internal(min_key: Option<&[u8]>, v: &Vec<Child>, from: usize, to: usize) -> (r: Vec<u8>)
    requires
        from <= to <= v@.len(),
    ensures
        r@ == internal_wire(
            (match min_key {
                None => None,
                Some(k) => Some(k@),
            }),
            child_views(v@).subrange(from as int, to as int),
        ),
{
    let ghost w = child_views(v@);
    let ghost m = match min_key {
        None => None,
        Some(k) => Some(k@),
    };
    let mut b: Vec<u8> = Vec::new();
    b.push(0);
    match min_key {
        None => {},
        Some(k) => {
            append_uvarint(&mut b, k.len() as u64);
            append_slice(&mut b, k);
        },
    }
    assert(b@ =~= seq![0u8] + root_wire(m));
    append_uvarint(&mut b, (to - from) as u64);
    let ghost b0 = b@;
    let mut i = from;
    proof {
        assert(w.subrange(from as int, from as int) =~= Seq::empty());
        crate::encoding::lemma_cat_empty(b0);
    }
    while i < to
        invariant
            from <= i <= to <= v@.len(),
            w == child_views(v@),
            b@ == b0 + children_wire(w.subrange(from as int, i as int)),
        decreases to - i,
    {
        append_child(&mut b, &v[i]);
        proof {
            let part = w.subrange(from as int, i + 1);
            assert(part.drop_last() =~= w.subrange(from as int, i as int));
            assert(part.last() == v@[i as int]@);
            crate::encoding::lemma_cat_assoc(b0, children_wire(part.drop_last()), child_wire(part.last()));
        }
        i += 1;
    }
    assert(b@ =~= internal_wire(m, w.subrange(from as int, to as int)));
    b
}

pub open spec fn parse_child(s: Seq<u8>) -> Option<(ChildView, Seq<u8>)> {
    match crate::edit_codec::parse_bytes(s) {
        None => None,
        Some((separator, s)) => match crate::sst_index::parse_handle(s) {
            None => None,
            Some((handle, s)) => Some((ChildView { separator, handle }, s)),
        },
    }
}

/// The handles of `n` children at the front of `s`.
pub open spec fn parse_children(s: Seq<u8>, n: nat) -> Option<Seq<BlockHandle>>
    decreases n,
{
    if n == 0 {
        Some(Seq::empty())
    } else {
        match parse_child(s) {
            None => None,
            Some((c, rest)) => match parse_children(rest, (n - 1) as nat) {
                None => None,
                Some(more) => Some(seq![c.handle] + more),
            },
        }
    }
}

/// The smallest key at the front of a root.
pub open spec fn parse_root(s: Seq<u8>, root: bool) -> Option<(Option<Seq<u8>>, Seq<u8>)> {
    if !root {
        Some((None, s))
    } else {
        match crate::edit_codec::parse_bytes(s) {
            None => None,
            Some((k, s)) => Some((Some(k), s)),
        }
    }
}

/// A node, and in a root the smallest key.
pub open spec fn parse_node(s: Seq<u8>, root: bool) -> Option<(Option<Seq<u8>>, NodeView)> {
    if s.len() == 0 {
        None
    } else {
        match parse_root(s.skip(1), root) {
            None => None,
            Some((min, p)) => match crate::encoding::parse_uvarint(p) {
                None => None,
                Some((n, p)) => if s[0] == 1 {
                    match crate::sst_index::parse_index_entries(p, n as nat) {
                        None => None,
                        Some(v) => Some((min, NodeView::Leaf(v))),
                    }
                } else {
                    match parse_children(p, n as nat) {
                        None => None,
                        Some(v) => Some((min, NodeView::Internal(v))),
                    }
                },
            },
        }
    }
}

fn take_children(p: &[u8], count: u64) -> (r: Option<Vec<BlockHandle>>)
    ensures
        match r {
            Some(v) => parse_children(p@, count as nat) == Some(v@),
            None => parse_children(p@, count as nat) is None,
        },
{
    let mut cur = p;
    let mut out: Vec<BlockHandle> = Vec::new();
    let mut i: u64 = 0;
    proof {
        if let Some(v) = parse_children(cur@, count as nat) {
            assert(out@ + v =~= v);
        }
    }
    while i < count
        invariant
            i <= count,
            parse_children(p@, count as nat) == (match parse_children(cur@, (count - i) as nat) {
                None => None,
                Some(v) => Some(out@ + v),
            }),
        decreases count - i,
    {
        let (_, p1) = match take_prefixed(cur) {
            None => {
                return None;
            },
            Some(x) => x,
        };
        let (h, rest) = match crate::sst_index::take_handle(p1) {
            None => {
                return None;
            },
            Some(x) => x,
        };
        let ghost o0 = out@;
        out.push(h);
        proof {
            if let Some(v) = parse_children(rest@, (count - i - 1) as nat) {
                assert(o0 + (seq![h] + v) =~= out@ + v);
            }
        }
        cur = rest;
        i += 1;
    }
    assert(out@ + Seq::<BlockHandle>::empty() =~= out@);
    Some(out)
}

// ---------------------------------------------------------------------------
// Loading a tree
// ---------------------------------------------------------------------------

/// A tree being read, node by node, from the root down and in order.
#[derive(Debug)]
pub struct TreeLoad {
    /// What is still to be read, the next node last.
    todo: Vec<BlockHandle>,
    /// Whether the root has been read.
    rooted: bool,
    min_key: Vec<u8>,
    index: Vec<IndexEntry>,
}

/// Where a load stands.
#[verifier::ext_equal]
pub struct LoadView {
    /// What is still to be read, the next node first.
    pub todo: Seq<BlockHandle>,
    pub rooted: bool,
    pub min_key: Seq<u8>,
    pub index: Seq<crate::sst_index::IndexView>,
}

/// The state after a node was read.
pub open spec fn fed(s: LoadView, min: Option<Seq<u8>>, n: NodeView) -> LoadView {
    LoadView {
        todo: match n {
            NodeView::Leaf(_) => s.todo.skip(1),
            NodeView::Internal(v) => v + s.todo.skip(1),
        },
        rooted: true,
        min_key: match min {
            None => s.min_key,
            Some(k) => k,
        },
        index: match n {
            NodeView::Leaf(v) => s.index + v,
            NodeView::Internal(_) => s.index,
        },
    }
}

fn corrupt() -> (r: OndaError)
    ensures
        r is Corruption,
{
    OndaError::Corruption(crate::text::join3("sst: ", "malformed index node", ""))
}

impl TreeLoad {
    pub closed spec fn view(&self) -> LoadView {
        LoadView {
            todo: self.todo@.reverse(),
            rooted: self.rooted,
            min_key: self.min_key@,
            index: crate::sst_index::index_views(self.index@),
        }
    }

    /// A load of the tree with this root.
    pub fn new(root: BlockHandle) -> (r: TreeLoad)
        ensures
            r@ == (LoadView { todo: seq![root], rooted: false, min_key: Seq::empty(), index: Seq::empty() }),
    {
        let mut todo: Vec<BlockHandle> = Vec::new();
        todo.push(root);
        let r = TreeLoad { todo, rooted: false, min_key: Vec::new(), index: Vec::new() };
        assert(r@.todo =~= seq![root]);
        assert(r@.min_key =~= Seq::empty());
        assert(r@.index =~= Seq::empty());
        r
    }

    /// The node to be read next; none once the tree is loaded.
    pub fn wanted(&self) -> (r: Option<BlockHandle>)
        ensures
            r == (if self@.todo.len() > 0 { Some(self@.todo[0]) } else { None }),
    {
        let n = self.todo.len();
        if n > 0 {
            Some(self.todo[n - 1])
        } else {
            None
        }
    }

    /// Take in the node that was wanted. A malformed one changes nothing.
    pub fn feed(&mut self, node: &[u8]) -> (r: Result<(), OndaError>)
        requires
            old(self)@.todo.len() > 0,
        ensures
            match parse_node(node@, !old(self)@.rooted) {
                None => r is Err && r->Err_0 is Corruption && final(self)@ == old(self)@,
                Some((min, n)) => r is Ok && final(self)@ == fed(old(self)@, min, n),
            },
    {
        let ghost s0 = self@;
        let ghost t0 = self.todo@;
        if node.len() == 0 {
            return Err(corrupt());
        }
        let root = !self.rooted;
        let (_, p0) = node.split_at(1);
        assert(p0@ =~= node@.skip(1));
        let mut min: Option<&[u8]> = None;
        let mut p1 = p0;
        if root {
            match take_prefixed(p0) {
                None => {
                    return Err(corrupt());
                },
                Some((k, rest)) => {
                    min = Some(k);
                    p1 = rest;
                },
            }
        }
        let (count, p2) = match take_uvarint(p1) {
            None => {
                return Err(corrupt());
            },
            Some(x) => x,
        };
        if node[0] == 1 {
            let mut v = match crate::sst_index::take_index_entries(p2, count) {
                None => {
                    return Err(corrupt());
                },
                Some(v) => v,
            };
            let ghost i0 = self.index@;
            let ghost v0 = v@;
            self.index.append(&mut v);
            self.todo.pop();
            proof {
                assert(crate::sst_index::index_views(self.index@) =~= crate::sst_index::index_views(i0) + crate::sst_index::index_views(v0));
                assert(self.todo@.reverse() =~= t0.reverse().skip(1));
            }
        } else {
            let v = match take_children(p2, count) {
                None => {
                    return Err(corrupt());
                },
                Some(v) => v,
            };
            self.todo.pop();
            let ghost t1 = self.todo@;
            let mut i: usize = v.len();
            assert(v@.skip(i as int) =~= Seq::empty());
            assert(self.todo@.reverse() =~= v@.skip(i as int) + t1.reverse());
            while i > 0
                invariant
                    i <= v@.len(),
                    self.todo@.reverse() == v@.skip(i as int) + t1.reverse(),
                    self.rooted == s0.rooted,
                    self.min_key@ == s0.min_key,
                    crate::sst_index::index_views(self.index@) == s0.index,
                decreases i,
            {
                i -= 1;
                let ghost b = self.todo@;
                self.todo.push(v[i]);
                proof {
                    assert(self.todo@.reverse() =~= seq![v@[i as int]] + b.reverse());
                    assert(v@.skip(i as int) =~= seq![v@[i as int]] + v@.skip(i + 1));
                    assert(self.todo@.reverse() =~= v@.skip(i as int) + t1.reverse());
                }
            }
            proof {
                assert(v@.skip(0) =~= v@);
                assert(t1.reverse() =~= t0.reverse().skip(1));
            }
        }
        self.rooted = true;
        match min {
            None => {},
            Some(k) => {
                self.min_key = copy_bytes(k);
            },
        }
        Ok(())
    }

    /// The smallest key and the entries of a loaded tree.
    pub fn finish(self) -> (r: (Vec<u8>, Vec<IndexEntry>))
        ensures
            r.0@ == self@.min_key,
            crate::sst_index::index_views(r.1@) == self@.index,
    {
        (self.min_key, self.index)
    }
}

/// The entries under a node, read from `store`, in a tree of at most `depth`
/// levels below it.
pub open spec fn tree_entries(store: spec_fn(BlockHandle) -> Seq<u8>, h: BlockHandle, root: bool, depth: nat) -> Option<
    Seq<crate::sst_index::IndexView>,
>
    decreases depth, 0nat,
{
    match parse_node(store(h), root) {
        None => None,
        Some((_, NodeView::Leaf(v))) => Some(v),
        Some((_, NodeView::Internal(hs))) => if depth == 0 { None } else { forest_entries(store, hs, (depth - 1) as nat) },
    }
}

/// The entries under some nodes, one after the other.
pub open spec fn forest_entries(store: spec_fn(BlockHandle) -> Seq<u8>, hs: Seq<BlockHandle>, depth: nat) -> Option<
    Seq<crate::sst_index::IndexView>,
>
    decreases depth, hs.len() + 1,
{
    if hs.len() == 0 {
        Some(Seq::empty())
    } else {
        match tree_entries(store, hs[0], false, depth) {
            None => None,
            Some(a) => match forest_entries(store, hs.skip(1), depth) {
                None => None,
                Some(b) => Some(a + b),
            },
        }
    }
}

proof fn lemma_deeper(store: spec_fn(BlockHandle) -> Seq<u8>, h: BlockHandle, root: bool, depth: nat)
    requires
        tree_entries(store, h, root, depth) is Some,
    ensures
        tree_entries(store, h, root, depth + 1) == tree_entries(store, h, root, depth),
    decreases depth, 0nat,
{
    if let Some((_, NodeView::Internal(hs))) = parse_node(store(h), root) {
        lemma_forest_deeper(store, hs, (depth - 1) as nat);
    }
}

proof fn lemma_forest_deeper(store: spec_fn(BlockHandle) -> Seq<u8>, hs: Seq<BlockHandle>, depth: nat)
    requires
        forest_entries(store, hs, depth) is Some,
    ensures
        forest_entries(store, hs, depth + 1) == forest_entries(store, hs, depth),
    decreases depth, hs.len() + 1,
{
    if hs.len() > 0 {
        lemma_deeper(store, hs[0], false, depth);
        lemma_forest_deeper(store, hs.skip(1), depth);
    }
}

proof fn lemma_forest_cat(store: spec_fn(BlockHandle) -> Seq<u8>, a: Seq<BlockHandle>, b: Seq<BlockHandle>, depth: nat)
    ensures
        forest_entries(store, a + b, depth) == (match (forest_entries(store, a, depth), forest_entries(store, b, depth)) {
            (Some(x), Some(y)) => Some(x + y),
            _ => None,
        }),
    decreases a.len(),
{
    if a.len() == 0 {
        assert(a + b =~= b);
        if let Some(y) = forest_entries(store, b, depth) {
            assert(Seq::<crate::sst_index::IndexView>::empty() + y =~= y);
        }
    } else {
        assert((a + b).skip(1) =~= a.skip(1) + b);
        lemma_forest_cat(store, a.skip(1), b, depth);
        if let (Some(x), Some(y), Some(z)) = (
            tree_entries(store, a[0], false, depth),
            forest_entries(store, a.skip(1), depth),
            forest_entries(store, b, depth),
        ) {
            assert(x + (y + z) =~= (x + y) + z);
        }
    }
}

/// Reading the wanted node of a tree leaves what the load will come to as it
/// was: what has been gathered, and then what is under the nodes still to be
/// read. So a load that ends has gathered the entries of the tree in order.
pub proof fn lemma_load_keeps_order(store: spec_fn(BlockHandle) -> Seq<u8>, s: LoadView, depth: nat)
    requires
        s.rooted,
        s.todo.len() > 0,
        forest_entries(store, s.todo, depth) is Some,
    ensures
        parse_node(store(s.todo[0]), false) matches Some((min, n)) && (forest_entries(store, fed(s, min, n).todo, depth) matches Some(more)
            && fed(s, min, n).index + more == s.index + forest_entries(store, s.todo, depth)->0),
{
    let h = s.todo[0];
    let rest = s.todo.skip(1);
    let (min, n) = parse_node(store(h), false)->0;
    let a = tree_entries(store, h, false, depth)->0;
    let b = forest_entries(store, rest, depth)->0;
    match n {
        NodeView::Leaf(v) => {
            assert((s.index + v) + b =~= s.index + (v + b));
        },
        NodeView::Internal(hs) => {
            lemma_forest_deeper(store, hs, (depth - 1) as nat);
            lemma_forest_cat(store, hs, rest, depth);
        },
    }
}

/// Reading the root of a tree leaves its children to be read, and they hold
/// the entries of the tree.
pub proof fn lemma_load_starts(store: spec_fn(BlockHandle) -> Seq<u8>, root: BlockHandle, s: LoadView, depth: nat)
    requires
        !s.rooted,
        s.todo == seq![root],
        s.index.len() == 0,
        tree_entries(store, root, true, depth) is Some,
    ensures
        parse_node(store(root), true) matches Some((min, n)) && (forest_entries(store, fed(s, min, n).todo, depth) matches Some(more)
            && fed(s, min, n).index + more == tree_entries(store, root, true, depth)->0),
{
    let (min, n) = parse_node(store(root), true)->0;
    assert(s.todo.skip(1) =~= Seq::empty());
    match n {
        NodeView::Leaf(v) => {
            assert(s.index + v =~= v);
            assert(fed(s, min, n).todo =~= Seq::empty());
            assert((s.index + v) + Seq::empty() =~= v);
        },
        NodeView::Internal(hs) => {
            lemma_forest_deeper(store, hs, (depth - 1) as nat);
            assert(fed(s, min, n).todo =~= hs);
            let more = forest_entries(store, hs, depth)->0;
            assert(s.index + more =~= more);
        },
    }
}

// ---------------------------------------------------------------------------
// Nodes are read back
// ---------------------------------------------------------------------------

/// A leaf is read back as it was written.
pub proof fn lemma_leaf_round_trip(v: Seq<crate::sst_index::IndexView>)
    requires
        v.len() <= u64::MAX,
        crate::sst_index::keys_fit(v),
    ensures
        parse_node(leaf_wire(v), false) == Some((None::<Seq<u8>>, NodeView::Leaf(v))),
{
    let w = crate::sst_index::index_entries_wire(v);
    let s = leaf_wire(v);
    assert(s.skip(1) =~= crate::encoding::uvarint_bytes(v.len()) + w);
    assert(s[0] == 1);
    crate::encoding::lemma_uvarint_round_trip(v.len() as u64, w);
    crate::sst_index::lemma_index_entries_trip(v, Seq::empty());
    crate::encoding::lemma_cat_empty(w);
}

proof fn lemma_child_trip(c: ChildView, rest: Seq<u8>)
    requires
        c.separator.len() <= u64::MAX,
    ensures
        parse_child(child_wire(c) + rest) == Some((c, rest)),
{
    let k = crate::edit_codec::bytes_wire(c.separator);
    let o = crate::encoding::uvarint_bytes(c.handle.offset as nat);
    let l = crate::encoding::uvarint_bytes(c.handle.length as nat);
    assert(child_wire(c) + rest =~= k + (o + (l + rest)));
    crate::edit_trip::lemma_bytes_trip(c.separator, o + (l + rest));
    crate::encoding::lemma_uvarint_round_trip(c.handle.offset, l + rest);
    crate::encoding::lemma_uvarint_round_trip(c.handle.length, rest);
}

proof fn lemma_children_front(x: ChildView, more: Seq<ChildView>)
    ensures
        children_wire(seq![x] + more) == child_wire(x) + children_wire(more),
    decreases more.len(),
{
    let v = seq![x] + more;
    if more.len() == 0 {
        assert(v.drop_last() =~= Seq::empty());
        assert(v.last() == x);
        assert(children_wire(v.drop_last()) =~= Seq::empty());
        assert(children_wire(more) =~= Seq::empty());
        crate::encoding::lemma_cat_empty(child_wire(x));
    } else {
        lemma_children_front(x, more.drop_last());
        assert(v.drop_last() =~= seq![x] + more.drop_last());
        assert(v.last() == more.last());
        crate::encoding::lemma_cat_assoc(child_wire(x), children_wire(more.drop_last()), child_wire(more.last()));
    }
}

pub open spec fn separators_fit(v: Seq<ChildView>) -> bool {
    forall|i: int| 0 <= i < v.len() ==> (#[trigger] v[i]).separator.len() <= u64::MAX
}

proof fn lemma_children_trip(v: Seq<ChildView>)
    requires
        separators_fit(v),
    ensures
        parse_children(children_wire(v), v.len()) == Some(handles_of(v)),
    decreases v.len(),
{
    if v.len() == 0 {
        assert(handles_of(v) =~= Seq::empty());
    } else {
        let x = v[0];
        let more = v.skip(1);
        assert(v =~= seq![x] + more);
        assert(separators_fit(more)) by {
            assert forall|i: int| 0 <= i < more.len() implies (#[trigger] more[i]).separator.len() <= u64::MAX by {
                assert(more[i] == v[i + 1]);
            }
        }
        lemma_children_front(x, more);
        lemma_children_trip(more);
        lemma_child_trip(x, children_wire(more));
        assert(handles_of(v) =~= seq![x.handle] + handles_of(more));
    }
}

/// An internal node is read back as the handles of its children, and a root
/// with the smallest key.
pub proof fn lemma_internal_round_trip(min_key: Option<Seq<u8>>, v: Seq<ChildView>)
    requires
        v.len() <= u64::MAX,
        separators_fit(v),
        min_key matches Some(k) ==> k.len() <= u64::MAX,
    ensures
        parse_node(internal_wire(min_key, v), min_key is Some) == Some((min_key, NodeView::Internal(handles_of(v)))),
{
    let w = children_wire(v);
    let n = crate::encoding::uvarint_bytes(v.len());
    let s = internal_wire(min_key, v);
    assert(s.skip(1) =~= root_wire(min_key) + (n + w));
    assert(s[0] == 0);
    match min_key {
        None => {
            crate::encoding::lemma_cat_empty(n + w);
        },
        Some(k) => {
            crate::edit_trip::lemma_bytes_trip(k, n + w);
        },
    }
    crate::encoding::lemma_uvarint_round_trip(v.len() as u64, w);
    lemma_children_trip(v);
}

// ---------------------------------------------------------------------------
// Writing a tree
// ---------------------------------------------------------------------------

/// A tree being written, node by node, from the leaves up.
#[derive(Debug)]
pub struct TreeWrite {
    min_key: Vec<u8>,
    entries: Vec<IndexEntry>,
    /// The nodes of the level below the one being written.
    level: Vec<Child>,
    /// The nodes of this level so far.
    done: Vec<Child>,
    /// How much of what is below stands in the nodes of this level so far.
    at: usize,
    leaf: bool,
    root: Option<BlockHandle>,
}

/// Where the writing of a tree stands.
#[verifier::ext_equal]
pub struct WriteView {
    pub min_key: Seq<u8>,
    pub entries: Seq<crate::sst_index::IndexView>,
    pub level: Seq<ChildView>,
    pub done: Seq<ChildView>,
    pub at: int,
    pub leaf: bool,
    pub root: Option<BlockHandle>,
}

impl WriteView {
    /// How many entries or children the nodes of this level are over.
    pub open spec fn total(self) -> int {
        if self.leaf { self.entries.len() as int } else { self.level.len() as int }
    }

    /// Where the node to be written ends.
    pub open spec fn end(self) -> int {
        if self.total() - self.at > BTREE_FANOUT { self.at + BTREE_FANOUT } else { self.total() }
    }

    /// Whether one node is over all of the level below.
    pub open spec fn at_top(self) -> bool {
        !self.leaf && self.level.len() <= BTREE_FANOUT
    }

    /// The node to be written.
    pub open spec fn node(self) -> Seq<u8> {
        if self.leaf {
            leaf_wire(self.entries.subrange(self.at, self.end()))
        } else {
            internal_wire(if self.at_top() { Some(self.min_key) } else { None }, self.level.subrange(self.at, self.end()))
        }
    }

    /// The last separator under the node to be written.
    pub open spec fn separator(self) -> Seq<u8> {
        if self.end() == 0 {
            Seq::empty()
        } else if self.leaf {
            self.entries[self.end() - 1].key
        } else {
            self.level[self.end() - 1].separator
        }
    }

    /// The state once that node stands at `h`.
    pub open spec fn wrote(self, h: BlockHandle) -> WriteView {
        let done = self.done.push(ChildView { separator: self.separator(), handle: h });
        if self.at_top() {
            WriteView { root: Some(h), ..self }
        } else if self.end() >= self.total() {
            WriteView { level: done, done: Seq::empty(), at: 0, leaf: false, ..self }
        } else {
            WriteView { done, at: self.end(), ..self }
        }
    }

    pub open spec fn inv(self) -> bool {
        &&& 0 <= self.at
        &&& self.at < self.total() || (self.leaf && self.at == 0 && self.total() == 0)
        &&& self.leaf ==> self.root is None
        &&& self.at_top() ==> self.at == 0
    }
}

impl TreeWrite {
    pub closed spec fn view(&self) -> WriteView {
        WriteView {
            min_key: self.min_key@,
            entries: crate::sst_index::index_views(self.entries@),
            level: child_views(self.level@),
            done: child_views(self.done@),
            at: self.at as int,
            leaf: self.leaf,
            root: self.root,
        }
    }

    /// Start to write the tree over these entries of a table.
    pub fn new(min_key: Vec<u8>, entries: Vec<IndexEntry>) -> (r: TreeWrite)
        ensures
            r@.inv(),
            r@ == (WriteView {
                min_key: min_key@,
                entries: crate::sst_index::index_views(entries@),
                level: Seq::empty(),
                done: Seq::empty(),
                at: 0,
                leaf: true,
                root: None,
            }),
    {
        let r = TreeWrite { min_key, entries, level: Vec::new(), done: Vec::new(), at: 0, leaf: true, root: None };
        assert(r@.level =~= Seq::empty());
        assert(r@.done =~= Seq::empty());
        r
    }

    /// Where the root stands, once it is written.
    pub fn root(&self) -> (r: Option<BlockHandle>)
        ensures
            r == self@.root,
    {
        self.root
    }

    fn end(&self) -> (r: usize)
        requires
            self@.inv(),
        ensures
            r == self@.end(),
            self@.at <= r,
    {
        let total = if self.leaf { self.entries.len() } else { self.level.len() };
        if total - self.at > BTREE_FANOUT {
            self.at + BTREE_FANOUT
        } else {
            total
        }
    }

    /// The node to be written next.
    pub fn node(&self) -> (r: Vec<u8>)
        requires
            self@.inv(),
        ensures
            r@ == self@.node(),
    {
        let end = self.end();
        if self.leaf {
            encode_leaf(&self.entries, self.at, end)
        } else {
            let min: Option<&[u8]> = if self.level.len() <= BTREE_FANOUT { Some(self.min_key.as_slice()) } else { None };
            encode_internal(min, &self.level, self.at, end)
        }
    }

    /// The node that was to be written stands at `h`.
    pub fn wrote(&mut self, h: BlockHandle)
        requires
            old(self)@.inv(),
            old(self)@.root is None,
        ensures
            final(self)@ == old(self)@.wrote(h),
            final(self)@.inv(),
    {
        let ghost v0 = self@;
        let end = self.end();
        if !self.leaf && self.level.len() <= BTREE_FANOUT {
            self.root = Some(h);
            return;
        }
        let separator = if end == 0 {
            Vec::new()
        } else if self.leaf {
            copy_bytes(self.entries[end - 1].user_key.as_slice())
        } else {
            copy_bytes(self.level[end - 1].separator.as_slice())
        };
        assert(separator@ =~= v0.separator());
        let total = if self.leaf { self.entries.len() } else { self.level.len() };
        let ghost d0 = self.done@;
        let c = Child { separator, handle: h };
        self.done.push(c);
        assert(child_views(self.done@) =~= child_views(d0).push(c@));
        if end >= total {
            let mut done: Vec<Child> = Vec::new();
            std::mem::swap(&mut done, &mut self.done);
            self.level = done;
            assert(child_views(self.done@) =~= Seq::empty());
            self.at = 0;
            self.leaf = false;
        } else {
            self.at = end;
        }
    }
}

/// Whether the nodes written so far, as `store` holds them, stand for the
/// entries they are over; the nodes below this level are `depth` levels deep.
pub open spec fn faithful(store: spec_fn(BlockHandle) -> Seq<u8>, w: WriteView, depth: nat) -> bool {
    &&& w.inv()
    &&& w.min_key.len() <= u64::MAX
    &&& w.entries.len() <= u64::MAX
    &&& w.level.len() <= u64::MAX
    &&& crate::sst_index::keys_fit(w.entries)
    &&& separators_fit(w.level)
    &&& separators_fit(w.done)
    &&& match w.root {
        Some(r) => tree_entries(store, r, true, depth) == Some(w.entries),
        None => if w.leaf {
            depth == 0 && forest_entries(store, handles_of(w.done), 0) == Some(w.entries.take(w.at))
        } else {
            &&& forest_entries(store, handles_of(w.level), depth) == Some(w.entries)
            &&& forest_entries(store, handles_of(w.done), depth + 1) == forest_entries(store, handles_of(w.level.take(w.at)), depth)
        },
    }
}

proof fn lemma_forest_one(store: spec_fn(BlockHandle) -> Seq<u8>, done: Seq<ChildView>, c: ChildView, depth: nat)
    ensures
        forest_entries(store, handles_of(done.push(c)), depth) == (match (
            forest_entries(store, handles_of(done), depth),
            tree_entries(store, c.handle, false, depth),
        ) {
            (Some(x), Some(y)) => Some(x + y),
            _ => None,
        }),
{
    let one = seq![c.handle];
    assert(handles_of(done.push(c)) =~= handles_of(done) + one);
    lemma_forest_cat(store, handles_of(done), one, depth);
    assert(one.skip(1) =~= Seq::empty());
    assert(forest_entries(store, one.skip(1), depth) == Some(Seq::<crate::sst_index::IndexView>::empty()));
    if let Some(y) = tree_entries(store, c.handle, false, depth) {
        assert(y + Seq::empty() =~= y);
    }
}

/// Writing a tree keeps it true that what was written stands for its entries.
/// So the finished tree holds the entries it was made from, in their order.
pub proof fn lemma_tree_stands_for_entries(store: spec_fn(BlockHandle) -> Seq<u8>, w: WriteView, h: BlockHandle, depth: nat) -> (deep: nat)
    requires
        faithful(store, w, depth),
        w.root is None,
        store(h) == w.node(),
        w.done.len() < u64::MAX,
    ensures
        faithful(store, w.wrote(h), deep),
{
    let end = w.end();
    let c = ChildView { separator: w.separator(), handle: h };
    let done = w.done.push(c);
    let n = w.wrote(h);
    assert(separators_fit(done)) by {
        assert(w.separator().len() <= u64::MAX) by {
            if end > 0 {
                if w.leaf {
                    assert(w.entries[end - 1].key.len() <= u64::MAX);
                } else {
                    assert(w.level[end - 1].separator.len() <= u64::MAX);
                }
            }
        }
    }
    if w.leaf {
        let part = w.entries.subrange(w.at, end);
        assert(crate::sst_index::keys_fit(part)) by {
            assert forall|i: int| 0 <= i < part.len() implies (#[trigger] part[i]).key.len() <= u64::MAX by {
                assert(part[i] == w.entries[w.at + i]);
            }
        }
        lemma_leaf_round_trip(part);
        assert(tree_entries(store, h, false, 0) == Some(part));
        lemma_forest_one(store, w.done, c, 0);
        assert(w.entries.take(w.at) + part =~= w.entries.take(end));
        if end >= w.total() {
            assert(w.entries.take(end) =~= w.entries);
            assert(n.level.take(0) =~= Seq::empty());
            assert(handles_of(n.level.take(0)) =~= Seq::empty());
            assert(handles_of(n.done) =~= Seq::empty());
        }
        0
    } else {
        let part = w.level.subrange(w.at, end);
        assert(separators_fit(part)) by {
            assert forall|i: int| 0 <= i < part.len() implies (#[trigger] part[i]).separator.len() <= u64::MAX by {
                assert(part[i] == w.level[w.at + i]);
            }
        }
        lemma_internal_round_trip(if w.at_top() { Some(w.min_key) } else { None }, part);
        if w.at_top() {
            assert(part =~= w.level);
            depth + 1
        } else {
            assert(tree_entries(store, h, false, depth + 1) == forest_entries(store, handles_of(part), depth));
            lemma_forest_one(store, w.done, c, depth + 1);
            assert(handles_of(w.level.take(end)) =~= handles_of(w.level.take(w.at)) + handles_of(part));
            lemma_forest_cat(store, handles_of(w.level.take(w.at)), handles_of(part), depth);
            if end >= w.total() {
                assert(w.level.take(end) =~= w.level);
                assert(n.level.take(0) =~= Seq::empty());
                assert(handles_of(n.level.take(0)) =~= Seq::empty());
                assert(handles_of(n.done) =~= Seq::empty());
                depth + 1
            } else {
                depth
            }
        }
    }
}

} // verus!
