//! Caches that several read-only databases share: who may use them, and when
//! they are emptied.

use vstd::prelude::*;
use vstd::string::StringExecFns;

use crate::error::OndaError;
use crate::text::str_eq;

verus! {

/// The bounds of shared caches.
#[derive(Debug, Clone)]
pub struct ReadResourceOptions {
    /// Bytes of decoded blocks; 0 for no block cache.
    pub block_cache_bytes: usize,
    /// Idle file handles, at least one.
    pub max_open_files: usize,
    /// Open tables, at least one.
    pub max_open_readers: usize,
    /// Resident bytes of open tables; 0 for no bound.
    pub max_reader_bytes: usize,
}

impl ReadResourceOptions {
    /// How many idle file handles are kept: at least one.
    pub fn open_files(&self) -> (r: usize)
        ensures
            r == (if self.max_open_files == 0 { 1 } else { self.max_open_files }),
    {
        if self.max_open_files == 0 {
            1
        } else {
            self.max_open_files
        }
    }
}

/// Counters of a cache of open tables.
#[derive(Debug, Clone, Copy, PartialEq, Eq, Structural)]
pub struct TableCacheStats {
    pub open_readers: usize,
    pub misses: u64,
    pub hits: u64,
    pub evictions: u64,
    pub bytes: usize,
}

/// Counters of a cache of blocks.
#[derive(Debug, Clone, Copy, PartialEq, Eq, Structural)]
pub struct CacheStats {
    pub hits: u64,
    pub misses: u64,
    pub evictions: u64,
    pub entries: usize,
    pub bytes: usize,
}

/// What is known of shared caches at one time.
#[derive(Debug, Clone, Copy)]
pub struct ReadResourceStats {
    pub block: CacheStats,
    pub table: TableCacheStats,
    pub open_files: usize,
    /// Databases that use the caches.
    pub leases: usize,
    /// Whether they take no more.
    pub closing: bool,
}

/// A namespace in use: its name, its number, and how many databases use it.
#[derive(Debug)]
pub struct NamespaceUse {
    pub name: String,
    pub id: u64,
    pub leases: usize,
}

/// Who uses shared caches.
#[derive(Debug)]
pub struct LeaseState {
    leases: usize,
    closing: bool,
    closed: bool,
    spaces: Vec<NamespaceUse>,
    next_ns: u64,
}

/// The same as mathematics: namespaces by name, with number and use.
#[verifier::ext_equal]
pub struct LeaseView {
    pub closing: bool,
    /// Whether the caches were emptied for good.
    pub closed: bool,
    pub spaces: Map<Seq<char>, (u64, nat)>,
    pub next_ns: u64,
}

/// What the end of a lease leaves to be done.
#[derive(Debug, Clone, Copy, PartialEq, Eq, Structural)]
pub enum Cleanup {
    Nothing,
    /// Drop what the caches hold of this namespace.
    Namespace(u64),
    /// Empty the caches.
    Everything,
}

/// Namespaces by name.
pub open spec fn spaces_of(v: Seq<NamespaceUse>) -> Map<Seq<char>, (u64, nat)>
    decreases v.len(),
{
    if v.len() == 0 { Map::empty() } else { spaces_of(v.drop_last()).insert(v.last().name@, (v.last().id, v.last().leases as nat)) }
}

/// How many leases there are under all namespaces.
pub open spec fn total_of(v: Seq<NamespaceUse>) -> nat
    decreases v.len(),
{
    if v.len() == 0 { 0 } else { total_of(v.drop_last()) + v.last().leases as nat }
}

pub open spec fn names_differ(v: Seq<NamespaceUse>) -> bool {
    forall|i: int, j: int| 0 <= i < j < v.len() ==> (#[trigger] v[i]).name@ != (#[trigger] v[j]).name@
}

proof fn lemma_spaces(v: Seq<NamespaceUse>)
    requires
        names_differ(v),
    ensures
        forall|i: int| 0 <= i < v.len() ==> spaces_of(v).dom().contains((#[trigger] v[i]).name@) && spaces_of(v)[v[i].name@] == (
            v[i].id,
            v[i].leases as nat,
        ),
        forall|n: Seq<char>| #[trigger] spaces_of(v).dom().contains(n) ==> exists|i: int| 0 <= i < v.len() && (#[trigger] v[i]).name@ == n,
    decreases v.len(),
{
    if v.len() > 0 {
        let f = v.drop_last();
        assert(names_differ(f)) by {
            assert forall|i: int, j: int| 0 <= i < j < f.len() implies (#[trigger] f[i]).name@ != (#[trigger] f[j]).name@ by {
                assert(f[i] == v[i] && f[j] == v[j]);
            }
        }
        lemma_spaces(f);
        assert forall|i: int| 0 <= i < v.len() implies spaces_of(v).dom().contains((#[trigger] v[i]).name@) && spaces_of(v)[v[i].name@] == (
            v[i].id,
            v[i].leases as nat,
        ) by {
            if i < f.len() {
                assert(f[i] == v[i]);
                assert(v[i].name@ != v[v.len() - 1].name@);
            }
        }
        assert forall|n: Seq<char>| #[trigger] spaces_of(v).dom().contains(n) implies exists|i: int|
            0 <= i < v.len() && (#[trigger] v[i]).name@ == n by {
            if n == v.last().name@ {
                assert(v[v.len() - 1].name@ == n);
            } else {
                assert(spaces_of(f).dom().contains(n));
                let i = choose|i: int| 0 <= i < f.len() && (#[trigger] f[i]).name@ == n;
                assert(v[i].name@ == n);
            }
        }
    }
}

/// Two lists of namespaces with the same members stand for the same map.
proof fn lemma_spaces_determined(v: Seq<NamespaceUse>, m: Map<Seq<char>, (u64, nat)>)
    requires
        names_differ(v),
        forall|i: int| 0 <= i < v.len() ==> m.dom().contains((#[trigger] v[i]).name@) && m[v[i].name@] == (v[i].id, v[i].leases as nat),
        forall|n: Seq<char>| #[trigger] m.dom().contains(n) ==> exists|i: int| 0 <= i < v.len() && (#[trigger] v[i]).name@ == n,
    ensures
        spaces_of(v) == m,
{
    lemma_spaces(v);
    assert forall|n: Seq<char>| spaces_of(v).dom().contains(n) == m.dom().contains(n) by {
        if spaces_of(v).dom().contains(n) {
            let i = choose|i: int| 0 <= i < v.len() && (#[trigger] v[i]).name@ == n;
        }
        if m.dom().contains(n) {
            let i = choose|i: int| 0 <= i < v.len() && (#[trigger] v[i]).name@ == n;
        }
    }
    assert forall|n: Seq<char>| spaces_of(v).dom().contains(n) implies spaces_of(v)[n] == m[n] by {
        let i = choose|i: int| 0 <= i < v.len() && (#[trigger] v[i]).name@ == n;
    }
    assert(spaces_of(v) =~= m);
}

proof fn lemma_total_update(v: Seq<NamespaceUse>, i: int, x: NamespaceUse)
    requires
        0 <= i < v.len(),
    ensures
        total_of(v.update(i, x)) + v[i].leases == total_of(v) + x.leases,
        total_of(v) >= v[i].leases,
    decreases v.len(),
{
    let w = v.update(i, x);
    if i == v.len() - 1 {
        assert(w.drop_last() =~= v.drop_last());
    } else {
        assert(w.drop_last() =~= v.drop_last().update(i, x));
        lemma_total_update(v.drop_last(), i, x);
    }
}

proof fn lemma_total_remove(v: Seq<NamespaceUse>, i: int)
    requires
        0 <= i < v.len(),
    ensures
        total_of(v.remove(i)) + v[i].leases == total_of(v),
    decreases v.len(),
{
    let w = v.remove(i);
    if i == v.len() - 1 {
        assert(w =~= v.drop_last());
    } else {
        assert(w.drop_last() =~= v.drop_last().remove(i));
        lemma_total_remove(v.drop_last(), i);
    }
}

/// The state with a lease more under a namespace.
pub open spec fn leased(s: LeaseView, name: Seq<char>) -> LeaseView {
    if s.spaces.dom().contains(name) {
        LeaseView { spaces: s.spaces.insert(name, (s.spaces[name].0, s.spaces[name].1 + 1)), ..s }
    } else {
        LeaseView { spaces: s.spaces.insert(name, (s.next_ns, 1)), next_ns: (s.next_ns + 1) as u64, ..s }
    }
}

impl LeaseState {
    pub closed spec fn view(&self) -> LeaseView {
        LeaseView { closing: self.closing, closed: self.closed, spaces: spaces_of(self.spaces@), next_ns: self.next_ns }
    }

    /// How many databases use the caches.
    pub closed spec fn uses(&self) -> nat {
        self.leases as nat
    }

    pub closed spec fn inv(&self) -> bool {
        &&& names_differ(self.spaces@)
        &&& self.leases == total_of(self.spaces@)
        &&& self.next_ns >= 1
        &&& forall|i: int| 0 <= i < self.spaces@.len() ==> 1 <= (#[trigger] self.spaces@[i]).id < self.next_ns && self.spaces@[i].leases > 0
        &&& forall|i: int, j: int| 0 <= i < j < self.spaces@.len() ==> (#[trigger] self.spaces@[i]).id != (#[trigger] self.spaces@[j]).id
        &&& self.closed ==> self.closing && self.leases == 0
    }

    /// Nobody uses the caches.
    pub fn new() -> (r: LeaseState)
        ensures
            r.inv(),
            r.uses() == 0,
            r@ == (LeaseView { closing: false, closed: false, spaces: Map::empty(), next_ns: 1 }),
    {
        LeaseState { leases: 0, closing: false, closed: false, spaces: Vec::new(), next_ns: 1 }
    }

    /// How many databases use the caches, and whether they take no more.
    pub fn usage(&self) -> (r: (usize, bool))
        ensures
            r.0 == self.uses(),
            r.1 == self@.closing,
    {
        (self.leases, self.closing)
    }

    /// Take no more leases; whether the caches are to be emptied now.
    pub fn close(&mut self) -> (r: bool)
        requires
            old(self).inv(),
        ensures
            final(self).inv(),
            final(self).uses() == old(self).uses(),
            r == (!old(self)@.closing && old(self).uses() == 0),
            final(self)@ == (LeaseView { closing: true, closed: old(self)@.closed || r, ..old(self)@ }),
    {
        if self.closing {
            return false;
        }
        self.closing = true;
        let finish = self.leases == 0 && !self.closed;
        if finish {
            self.closed = true;
        }
        finish
    }

    fn find(&self, name: &str) -> (r: Option<usize>)
        ensures
            match r {
                Some(i) => i < self.spaces@.len() && self.spaces@[i as int].name@ == name@,
                None => forall|i: int| 0 <= i < self.spaces@.len() ==> (#[trigger] self.spaces@[i]).name@ != name@,
            },
    {
        let mut i: usize = 0;
        while i < self.spaces.len()
            invariant
                i <= self.spaces@.len(),
                forall|k: int| 0 <= k < i ==> (#[trigger] self.spaces@[k]).name@ != name@,
            decreases self.spaces@.len() - i,
        {
            if str_eq(self.spaces[i].name.as_str(), name) {
                return Some(i);
            }
            i += 1;
        }
        None
    }

    /// Take a lease under a namespace: the number of that namespace. Refused
    /// once the caches are closed.
    pub fn lease(&mut self, namespace: &str) -> (r: Result<u64, OndaError>)
        requires
            old(self).inv(),
            old(self).uses() < usize::MAX,
            old(self)@.next_ns < u64::MAX,
        ensures
            final(self).inv(),
            old(self)@.closing ==> r is Err && r->Err_0 is InvalidArgs && final(self)@ == old(self)@ && final(self).uses() == old(self).uses(),
            !old(self)@.closing ==> {
                &&& final(self)@ == leased(old(self)@, namespace@)
                &&& final(self).uses() == old(self).uses() + 1
                &&& r == Ok::<u64, OndaError>(final(self)@.spaces[namespace@].0)
            },
    {
        if self.closing {
            return Err(OndaError::InvalidArgs(crate::text::join3("ReadResources", " is closed", "")));
        }
        let ghost s0 = self.spaces@;
        proof {
            lemma_spaces(s0);
        }
        match self.find(namespace) {
            Some(i) => {
                proof {
                    lemma_total_update(s0, i as int, s0[i as int]);
                }
                let id = self.spaces[i].id;
                let n = self.spaces[i].leases;
                let name = self.spaces[i].name.clone();
                self.spaces.set(i, NamespaceUse { name, id, leases: n + 1 });
                self.leases = self.leases + 1;
                proof {
                    let x = self.spaces@[i as int];
                    assert(self.spaces@ =~= s0.update(i as int, x));
                    lemma_total_update(s0, i as int, x);
                    let m = leased(old(self)@, namespace@).spaces;
                    assert forall|k: int| 0 <= k < self.spaces@.len() implies m.dom().contains((#[trigger] self.spaces@[k]).name@)
                        && m[self.spaces@[k].name@] == (self.spaces@[k].id, self.spaces@[k].leases as nat) by {
                        if k != i {
                            assert(self.spaces@[k] == s0[k]);
                        }
                    }
                    assert forall|a: Seq<char>| #[trigger] m.dom().contains(a) implies exists|k: int|
                        0 <= k < self.spaces@.len() && (#[trigger] self.spaces@[k]).name@ == a by {
                        if a == namespace@ {
                            assert(self.spaces@[i as int].name@ == a);
                        } else {
                            assert(spaces_of(s0).dom().contains(a));
                            let k = choose|k: int| 0 <= k < s0.len() && (#[trigger] s0[k]).name@ == a;
                            assert(self.spaces@[k].name@ == a);
                        }
                    }
                    lemma_spaces_determined(self.spaces@, m);
                    assert(self@ =~= leased(old(self)@, namespace@));
                }
                Ok(id)
            },
            None => {
                let id = self.next_ns;
                self.spaces.push(NamespaceUse { name: String::from_str(namespace), id, leases: 1 });
                self.next_ns = self.next_ns + 1;
                self.leases = self.leases + 1;
                proof {
                    assert(self.spaces@.drop_last() =~= s0);
                    assert(!spaces_of(s0).dom().contains(namespace@)) by {
                        if spaces_of(s0).dom().contains(namespace@) {
                            let k = choose|k: int| 0 <= k < s0.len() && (#[trigger] s0[k]).name@ == namespace@;
                        }
                    }
                }
                Ok(id)
            },
        }
    }

    /// End a lease under a namespace: what is left to be done. A namespace that
    /// nobody uses any more is forgotten, and its number is not given again;
    /// the last lease of closed caches empties them.
    pub fn release(&mut self, namespace: &str) -> (r: Cleanup)
        requires
            old(self).inv(),
            old(self)@.spaces.dom().contains(namespace@),
        ensures
            final(self).inv(),
            final(self).uses() == old(self).uses() - 1,
            final(self)@ == ({
                let s = old(self)@;
                let (id, n) = s.spaces[namespace@];
                LeaseView {
                    spaces: if n == 1 { s.spaces.remove(namespace@) } else { s.spaces.insert(namespace@, (id, (n - 1) as nat)) },
                    closed: s.closed || r is Everything,
                    ..s
                }
            }),
            r == (if old(self)@.closing && old(self).uses() == 1 {
                Cleanup::Everything
            } else if old(self)@.spaces[namespace@].1 == 1 {
                Cleanup::Namespace(old(self)@.spaces[namespace@].0)
            } else {
                Cleanup::Nothing
            }),
    {
        let ghost s0 = self.spaces@;
        proof {
            lemma_spaces(s0);
            let k = choose|k: int| 0 <= k < s0.len() && (#[trigger] s0[k]).name@ == namespace@;
        }
        let mut purge: Option<u64> = None;
        match self.find(namespace) {
            None => {},
            Some(i) => {
                let id = self.spaces[i].id;
                let n = self.spaces[i].leases;
                proof {
                    lemma_total_update(s0, i as int, s0[i as int]);
                }
                if n == 1 {
                    self.spaces.remove(i);
                    purge = Some(id);
                    proof {
                        assert(self.spaces@ =~= s0.remove(i as int));
                        lemma_total_remove(s0, i as int);
                        let v = self.spaces@;
                        assert forall|a: int, b: int| 0 <= a < b < v.len() implies (#[trigger] v[a]).name@ != (#[trigger] v[b]).name@ by {
                            let a0 = if a < i { a } else { a + 1 };
                            let b0 = if b < i { b } else { b + 1 };
                            assert(v[a] == s0[a0] && v[b] == s0[b0]);
                        }
                        assert forall|a: int, b: int| 0 <= a < b < v.len() implies (#[trigger] v[a]).id != (#[trigger] v[b]).id by {
                            let a0 = if a < i { a } else { a + 1 };
                            let b0 = if b < i { b } else { b + 1 };
                            assert(v[a] == s0[a0] && v[b] == s0[b0]);
                        }
                        let m = spaces_of(s0).remove(namespace@);
                        assert forall|k: int| 0 <= k < v.len() implies m.dom().contains((#[trigger] v[k]).name@) && m[v[k].name@] == (
                            v[k].id,
                            v[k].leases as nat,
                        ) by {
                            let k0 = if k < i { k } else { k + 1 };
                            assert(v[k] == s0[k0]);
                            assert(s0[k0].name@ != s0[i as int].name@);
                        }
                        assert forall|a: Seq<char>| #[trigger] m.dom().contains(a) implies exists|k: int|
                            0 <= k < v.len() && (#[trigger] v[k]).name@ == a by {
                            assert(spaces_of(s0).dom().contains(a));
                            let k0 = choose|k: int| 0 <= k < s0.len() && (#[trigger] s0[k]).name@ == a;
                            let k = if k0 < i { k0 } else { k0 - 1 };
                            assert(v[k] == s0[k0]);
                        }
                        lemma_spaces_determined(v, m);
                        assert forall|k: int| 0 <= k < v.len() implies 1 <= (#[trigger] v[k]).id < self.next_ns && v[k].leases > 0 by {
                            let k0 = if k < i { k } else { k + 1 };
                            assert(v[k] == s0[k0]);
                        }
                    }
                } else {
                    let name = self.spaces[i].name.clone();
                    self.spaces.set(i, NamespaceUse { name, id, leases: n - 1 });
                    proof {
                        let x = self.spaces@[i as int];
                        let v = self.spaces@;
                        assert(v =~= s0.update(i as int, x));
                        lemma_total_update(s0, i as int, x);
                        let m = spaces_of(s0).insert(namespace@, (id, (n - 1) as nat));
                        assert forall|k: int| 0 <= k < v.len() implies m.dom().contains((#[trigger] v[k]).name@) && m[v[k].name@] == (
                            v[k].id,
                            v[k].leases as nat,
                        ) by {
                            if k != i {
                                assert(v[k] == s0[k]);
                                assert(s0[k].name@ != s0[i as int].name@);
                            }
                        }
                        assert forall|a: Seq<char>| #[trigger] m.dom().contains(a) implies exists|k: int|
                            0 <= k < v.len() && (#[trigger] v[k]).name@ == a by {
                            if a == namespace@ {
                                assert(v[i as int].name@ == a);
                            } else {
                                assert(spaces_of(s0).dom().contains(a));
                                let k = choose|k: int| 0 <= k < s0.len() && (#[trigger] s0[k]).name@ == a;
                                assert(v[k].name@ == a);
                            }
                        }
                        lemma_spaces_determined(v, m);
                    }
                }
                self.leases = self.leases - 1;
            },
        }
        let finish = self.closing && self.leases == 0 && !self.closed;
        if finish {
            self.closed = true;
            return Cleanup::Everything;
        }
        match purge {
            None => Cleanup::Nothing,
            Some(id) => Cleanup::Namespace(id),
        }
    }

    /// Two namespaces in use have different numbers, and none has the number 0,
    /// which stands for caches that are not shared.
    pub proof fn lemma_namespaces_are_apart(&self, a: Seq<char>, b: Seq<char>)
        requires
            self.inv(),
            self@.spaces.dom().contains(a),
            self@.spaces.dom().contains(b),
            a != b,
        ensures
            self@.spaces[a].0 != self@.spaces[b].0,
            self@.spaces[a].0 != 0,
            self@.spaces[a].0 < self@.next_ns,
    {
        let s = self.spaces@;
        lemma_spaces(s);
        let i = choose|i: int| 0 <= i < s.len() && (#[trigger] s[i]).name@ == a;
        let j = choose|j: int| 0 <= j < s.len() && (#[trigger] s[j]).name@ == b;
        if i < j {
            assert(s[i].id != s[j].id);
        } else {
            assert(s[j].id != s[i].id);
        }
    }
}

/// A lease of a namespace counts one more of it, under the number that it has
/// or, where nobody holds it, the next one, which no later one gets; other
/// namespaces keep theirs, and so does whether the cache is closing.
pub proof fn lemma_lease_counts_one_more(s: LeaseView, name: Seq<char>, other: Seq<char>)
    requires
        s.next_ns < u64::MAX,
    ensures
        ({
            let l = leased(s, name);
            &&& l.spaces.dom() == s.spaces.dom().insert(name)
            &&& s.spaces.dom().contains(name) ==> l.spaces[name].0 == s.spaces[name].0 && l.spaces[name].1 == s.spaces[name].1 + 1 && l.next_ns
                == s.next_ns
            &&& !s.spaces.dom().contains(name) ==> l.spaces[name].0 == s.next_ns && l.spaces[name].1 == 1 && l.next_ns == s.next_ns + 1
            &&& other != name && s.spaces.dom().contains(other) ==> l.spaces[other] == s.spaces[other]
            &&& l.closing == s.closing
            &&& l.closed == s.closed
        }),
{
    assert(leased(s, name).spaces.dom() =~= s.spaces.dom().insert(name));
}

} // verus!
