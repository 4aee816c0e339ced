//! Where objects are stored: what is known of a stored object, listings by
//! page, and the roots of storage tiers.

use vstd::prelude::*;
use vstd::string::{StrSliceExecFns, StringExecFns};

use crate::comparator::compare_bytes;
use crate::error::OndaError;
use crate::format::cf_dir_name;
use crate::text::str_eq;

verus! {

/// The SHA-256 digest of some bytes.
pub uninterp spec fn sha256(s: Seq<u8>) -> Seq<u8>;

/// `sha2::Sha256::digest`: 32 bytes that the data alone decides.
#[verifier::external_body]
pub(crate) fn sha256_of(data: &[u8]) -> (r: [u8; 32])
    ensures
        r@ == sha256(data@),
{
    <sha2::Sha256 as sha2::Digest>::digest(data).into()
}

/// What a whole object that was written left behind.
#[derive(Debug, Clone, PartialEq, Eq)]
pub struct ObjectInfo {
    pub size: u64,
    /// The SHA-256 digest of the bytes that were sent.
    pub sha256: [u8; 32],
    /// The checksum that the store reported, where it did.
    pub store_checksum: Option<String>,
    /// Whether the store checked what it received.
    pub store_verified: bool,
}

impl ObjectInfo {
    /// What is known of an object once these bytes were sent to a store that
    /// checks nothing.
    pub fn of(data: &[u8]) -> (r: ObjectInfo)
        ensures
            r.size == data@.len(),
            r.sha256@ == sha256(data@),
            r.store_checksum is None,
            !r.store_verified,
    {
        let n = data.len();
        ObjectInfo { size: n as u64, sha256: sha256_of(data), store_checksum: None, store_verified: false }
    }
}

/// What came of an attempt to create an object that must not exist yet.
#[derive(Debug, Clone, PartialEq, Eq)]
pub enum CreateOutcome {
    /// It did not exist, and now holds what was sent.
    Created(ObjectInfo),
    /// It existed, and was left alone.
    AlreadyExists,
}

/// Whether an error means that there is no such object.
pub fn is_not_found(e: &OndaError) -> (r: bool)
    ensures
        r == (match *e {
            OndaError::NotFound => true,
            OndaError::Io(f) => f.not_found,
            _ => false,
        }),
{
    match e {
        OndaError::NotFound => true,
        OndaError::Io(f) => f.not_found,
        _ => false,
    }
}

// ---------------------------------------------------------------------------
// Texts in order
// ---------------------------------------------------------------------------

/// The order of texts: that of their bytes.
pub open spec fn text_le(a: Seq<char>, b: Seq<char>) -> bool {
    crate::comparator::bytes_le(vstd::utf8::encode_utf8(a), vstd::utf8::encode_utf8(b))
}

pub open spec fn texts(v: Seq<String>) -> Seq<Seq<char>> {
    v.map_values(|s: String| s@)
}

pub open spec fn texts_sorted(v: Seq<Seq<char>>) -> bool {
    forall|i: int, j: int| 0 <= i < j < v.len() ==> text_le(#[trigger] v[i], #[trigger] v[j])
}

/// Whether `v` holds the texts of `names`, each as often, in order.
pub open spec fn sorted_as(v: Seq<Seq<char>>, names: Seq<Seq<char>>) -> bool {
    texts_sorted(v) && v.to_multiset() == names.to_multiset()
}

/// Whether `a` does not come after `b`.
pub fn text_not_after(a: &str, b: &str) -> (r: bool)
    ensures
        r == text_le(a@, b@),
{
    compare_bytes(a.as_bytes(), b.as_bytes()).is_le()
}

/// Sort texts.
pub fn sort_texts(names: Vec<String>) -> (r: Vec<String>)
    ensures
        sorted_as(texts(r@), texts(names@)),
{
    let mut rest = names;
    let mut out: Vec<String> = Vec::new();
    let ghost all = texts(names@);
    proof {
        assert(texts(out@) =~= Seq::empty());
        texts(rest@).to_multiset_ensures();
        Seq::<Seq<char>>::empty().to_multiset_ensures();
        assert(texts(out@).to_multiset().add(texts(rest@).to_multiset()) =~= all.to_multiset());
    }
    while rest.len() > 0
        invariant
            texts_sorted(texts(out@)),
            texts(out@).to_multiset().add(texts(rest@).to_multiset()) =~= all.to_multiset(),
        decreases rest@.len(),
    {
        let ghost r0 = texts(rest@);
        let ghost o0 = texts(out@);
        let x = match rest.pop() {
            Some(x) => x,
            None => {
                return out;
            },
        };
        let mut i: usize = out.len();
        while i > 0 && !text_not_after(out[i - 1].as_str(), x.as_str())
            invariant
                i <= out@.len(),
                texts(out@) == o0,
                texts_sorted(o0),
                forall|k: int| i <= k < o0.len() ==> !text_le(#[trigger] o0[k], x@),
            decreases i,
        {
            i -= 1;
            assert(o0[i as int] == out@[i as int]@);
        }
        let ghost xv = x@;
        proof {
            assert forall|k: int| 0 <= k < i implies text_le(#[trigger] o0[k], xv) by {
                assert(o0[i - 1] == out@[i - 1]@);
                if k < i - 1 {
                    crate::comparator::lemma_bytes_transitive(
                        vstd::utf8::encode_utf8(o0[k]),
                        vstd::utf8::encode_utf8(o0[i - 1]),
                        vstd::utf8::encode_utf8(xv),
                    );
                }
            }
            assert forall|k: int| i <= k < o0.len() implies text_le(xv, #[trigger] o0[k]) by {
                crate::comparator::lemma_bytes_total(vstd::utf8::encode_utf8(o0[k]), vstd::utf8::encode_utf8(xv));
            }
        }
        out.insert(i, x);
        proof {
            assert(texts(out@) =~= o0.insert(i as int, xv));
            assert(r0 =~= texts(rest@).push(xv));
            texts(rest@).to_multiset_ensures();
            o0.to_multiset_ensures();
            vstd::seq_lib::to_multiset_insert(o0, i as int, xv);
            assert(texts(out@).to_multiset() =~= o0.to_multiset().insert(xv));
            assert(r0.to_multiset() =~= texts(rest@).to_multiset().insert(xv));
        }
    }
    proof {
        assert(texts(rest@) =~= Seq::empty());
        Seq::<Seq<char>>::empty().to_multiset_ensures();
        assert(texts(rest@).to_multiset() =~= vstd::multiset::Multiset::empty());
        assert(texts(out@).to_multiset().add(texts(rest@).to_multiset()) =~= texts(out@).to_multiset());
    }
    out
}

// ---------------------------------------------------------------------------
// Listings by page
// ---------------------------------------------------------------------------

/// One page of the children of a prefix.
#[derive(Debug, Clone, PartialEq, Eq)]
pub struct PrefixPage {
    /// In order; each is the listed prefix, a slash and the name of the child.
    pub prefixes: Vec<String>,
    /// Where to go on; none once the listing is complete.
    pub next_token: Option<String>,
}

impl Default for PrefixPage {
    fn default() -> (r: PrefixPage)
        ensures
            r.prefixes@.len() == 0,
            r.next_token is None,
    {
        PrefixPage { prefixes: Vec::new(), next_token: None }
    }
}

/// How many children a page has where no limit is given.
pub const DEFAULT_PAGE: usize = 1000;

/// A text without the slashes at its end.
pub open spec fn without_slashes(s: Seq<char>) -> Seq<char>
    decreases s.len(),
{
    if s.len() > 0 && s.last() == '/' { without_slashes(s.drop_last()) } else { s }
}

/// A prefix without the slashes at its end.
pub fn trim_slashes(prefix: &str) -> (r: String)
    ensures
        r@ == without_slashes(prefix@),
{
    let mut n = prefix.unicode_len();
    assert(prefix@.take(n as int) =~= prefix@);
    while n > 0 && prefix.get_char(n - 1) == '/'
        invariant
            n <= prefix@.len(),
            without_slashes(prefix@) == without_slashes(prefix@.take(n as int)),
        decreases n,
    {
        n -= 1;
        assert(prefix@.take(n + 1).drop_last() =~= prefix@.take(n as int));
        assert(prefix@.take(n + 1).last() == prefix@[n as int]);
    }
    assert(n > 0 ==> prefix@.take(n as int).last() == prefix@[n - 1]);
    let front = prefix.substring_char(0, n);
    assert(front@ =~= prefix@.take(n as int));
    String::from_str(front)
}

/// How many texts of a sorted listing do not come after a token.
pub open spec fn resumes_at(v: Seq<Seq<char>>, token: Option<Seq<char>>, start: int) -> bool {
    match token {
        None => start == 0,
        Some(t) => {
            &&& 0 <= start <= v.len()
            &&& forall|k: int| 0 <= k < start ==> text_le(#[trigger] v[k], t)
            &&& forall|k: int| start <= k < v.len() ==> !text_le(#[trigger] v[k], t)
        },
    }
}

/// Where a page that starts at `start` ends.
pub open spec fn page_end(n: int, start: int, limit: int) -> int {
    let m = if limit == 0 { DEFAULT_PAGE as int } else { limit };
    if start + m < n { start + m } else { n }
}

pub open spec fn child_path(base: Seq<char>, name: Seq<char>) -> Seq<char> {
    base + "/"@ + name
}

/// Whether `p` is the page of the listing `v` from `start` on.
pub open spec fn is_page(p: PrefixPage, base: Seq<char>, v: Seq<Seq<char>>, start: int, limit: int) -> bool {
    let end = page_end(v.len() as int, start, limit);
    &&& p.prefixes@.len() == end - start
    &&& forall|k: int| 0 <= k < end - start ==> (#[trigger] p.prefixes@[k])@ == child_path(base, v[start + k])
    &&& crate::text::opt_text(p.next_token) == (if end < v.len() { Some(v[end - 1]) } else { None })
}

/// One page of a listing: the children of `base` in order, from behind `token`
/// on, at most `limit` of them.
pub fn page_of(base: &str, names: Vec<String>, token: Option<&str>, limit: usize) -> (r: PrefixPage)
    ensures
        exists|v: Seq<Seq<char>>, start: int| #[trigger]
            is_page(r, base@, v, start, limit as int) && sorted_as(v, texts(names@)) && resumes_at(
                v,
                (match token {
                    None => None,
                    Some(t) => Some(t@),
                }),
                start,
            ),
{
    let sorted = sort_texts(names);
    let ghost v = texts(sorted@);
    let n = sorted.len();
    let mut start: usize = 0;
    match token {
        None => {},
        Some(t) => {
            while start < n && text_not_after(sorted[start].as_str(), t)
                invariant
                    start <= n,
                    n == sorted@.len(),
                    v == texts(sorted@),
                    forall|k: int| 0 <= k < start ==> text_le(#[trigger] v[k], t@),
                decreases n - start,
            {
                assert(v[start as int] == sorted@[start as int]@);
                start += 1;
            }
            proof {
                assert forall|k: int| start <= k < v.len() implies !text_le(#[trigger] v[k], t@) by {
                    assert(v[start as int] == sorted@[start as int]@);
                    if text_le(v[k], t@) && k > start {
                        crate::comparator::lemma_bytes_transitive(
                            vstd::utf8::encode_utf8(v[start as int]),
                            vstd::utf8::encode_utf8(v[k]),
                            vstd::utf8::encode_utf8(t@),
                        );
                    }
                }
            }
        },
    }
    let m = if limit == 0 { DEFAULT_PAGE } else { limit };
    let end = if m < n - start { start + m } else { n };
    let mut prefixes: Vec<String> = Vec::new();
    let mut i: usize = start;
    while i < end
        invariant
            start <= i <= end <= n,
            n == sorted@.len(),
            v == texts(sorted@),
            prefixes@.len() == i - start,
            forall|k: int| 0 <= k < i - start ==> (#[trigger] prefixes@[k])@ == child_path(base@, v[start + k]),
        decreases end - i,
    {
        let p = crate::text::join3(base, "/", sorted[i].as_str());
        assert(v[i as int] == sorted@[i as int]@);
        prefixes.push(p);
        i += 1;
    }
    let next_token = if end < n {
        assert(v[end - 1] == sorted@[end - 1]@);
        Some(sorted[end - 1].clone())
    } else {
        None
    };
    let r = PrefixPage { prefixes, next_token };
    proof {
        assert(is_page(r, base@, v, start as int, limit as int));
    }
    r
}

/// The pages of a listing follow each other without gap or overlap: of a
/// listing in which no name occurs twice, the page for the token of one starts
/// where that one ended.
pub proof fn lemma_pages_follow(v: Seq<Seq<char>>, start: int, limit: int, next: int)
    requires
        texts_sorted(v),
        forall|i: int, j: int| 0 <= i < j < v.len() ==> #[trigger] v[i] != #[trigger] v[j],
        0 <= start < v.len(),
        0 <= limit,
        page_end(v.len() as int, start, limit) < v.len(),
        resumes_at(v, Some(v[page_end(v.len() as int, start, limit) - 1]), next),
    ensures
        next == page_end(v.len() as int, start, limit),
        next > start,
{
    let end = page_end(v.len() as int, start, limit);
    let t = v[end - 1];
    crate::comparator::lemma_bytes_total(vstd::utf8::encode_utf8(t), vstd::utf8::encode_utf8(t));
    if next < end {
        assert(text_le(v[next], t));
    } else if next > end {
        assert(text_le(v[end], t));
        assert(text_le(v[end - 1], v[end]));
        crate::comparator::lemma_bytes_antisymmetric(vstd::utf8::encode_utf8(t), vstd::utf8::encode_utf8(v[end]));
        vstd::utf8::encode_utf8_decode_utf8(t);
        vstd::utf8::encode_utf8_decode_utf8(v[end]);
    }
}

// ---------------------------------------------------------------------------
// Tiers
// ---------------------------------------------------------------------------

/// A named tier and its root.
#[derive(Debug, Clone)]
pub struct TierEntry {
    pub name: String,
    pub root: String,
}

/// The tiers of a database. Objects on no named tier lie under the default
/// root.
#[derive(Debug)]
pub struct TierRegistry {
    pub default_root: String,
    pub tiers: Vec<TierEntry>,
}

/// Whether the first tier of this name is tier `i`.
pub open spec fn names_tier(tiers: Seq<TierEntry>, name: Seq<char>, i: int) -> bool {
    &&& 0 <= i < tiers.len()
    &&& tiers[i].name@ == name
    &&& forall|j: int| 0 <= j < i ==> (#[trigger] tiers[j]).name@ != name
}

/// Whether no tier has this name.
pub open spec fn names_none(tiers: Seq<TierEntry>, name: Seq<char>) -> bool {
    forall|j: int| 0 <= j < tiers.len() ==> (#[trigger] tiers[j]).name@ != name
}

pub open spec fn opt_str(t: Option<&str>) -> Option<Seq<char>> {
    match t {
        None => None,
        Some(s) => Some(s@),
    }
}

impl TierRegistry {
    /// The root of a tier; the default root for a tier that is not named or not
    /// known.
    pub open spec fn root_text(&self, tier: Option<Seq<char>>, r: Seq<char>) -> bool {
        match tier {
            None => r == self.default_root@,
            Some(n) => {
                ||| names_none(self.tiers@, n) && r == self.default_root@
                ||| exists|i: int| #[trigger] names_tier(self.tiers@, n, i) && r == self.tiers@[i].root@
            },
        }
    }

    /// Which named tier this is; none for the default.
    pub fn slot_for(&self, tier: Option<&str>) -> (r: Option<usize>)
        ensures
            match (tier, r) {
                (None, _) => r is None,
                (Some(n), Some(i)) => names_tier(self.tiers@, n@, i as int),
                (Some(n), None) => names_none(self.tiers@, n@),
            },
    {
        let name = match tier {
            None => {
                return None;
            },
            Some(n) => n,
        };
        let mut i: usize = 0;
        while i < self.tiers.len()
            invariant
                i <= self.tiers@.len(),
                tier == Some(name),
                forall|j: int| 0 <= j < i ==> (#[trigger] self.tiers@[j]).name@ != name@,
            decreases self.tiers@.len() - i,
        {
            if str_eq(self.tiers[i].name.as_str(), name) {
                return Some(i);
            }
            i += 1;
        }
        None
    }

    /// The root directory of a tier.
    pub fn root_for(&self, tier: Option<&str>) -> (r: &str)
        ensures
            self.root_text(opt_str(tier), r@),
    {
        match self.slot_for(tier) {
            None => self.default_root.as_str(),
            Some(i) => self.tiers[i].root.as_str(),
        }
    }

    /// Whether a tier is known; the default one is.
    pub fn is_known(&self, tier: Option<&str>) -> (r: bool)
        ensures
            r == (tier is None || !names_none(self.tiers@, tier->0@)),
    {
        match tier {
            None => true,
            Some(_) => self.slot_for(tier).is_some(),
        }
    }

    /// The directory of a column family on a tier.
    pub fn cf_dir(&self, tier: Option<&str>, cf_name: &str) -> (r: String)
        ensures
            exists|root: Seq<char>| #[trigger]
                self.root_text(opt_str(tier), root) && r@ == child_path(root, crate::format::cf_dir_text(cf_name@)),
    {
        let root = self.root_for(tier);
        let d = cf_dir_name(cf_name);
        let r = crate::text::join3(root, "/", d.as_str());
        assert(self.root_text(opt_str(tier), root@) && r@ == child_path(root@, crate::format::cf_dir_text(cf_name@)));
        r
    }
}

// ---------------------------------------------------------------------------
// What listings and roots are
// ---------------------------------------------------------------------------

/// Trimming takes slashes off the end, all of them and nothing else.
pub proof fn lemma_trimming_takes_the_slashes(s: Seq<char>)
    ensures
        ({
            let t = without_slashes(s);
            &&& t.is_prefix_of(s)
            &&& forall|i: int| t.len() <= i < s.len() ==> #[trigger] s[i] == '/'
            &&& t.len() > 0 ==> t.last() != '/'
        }),
    decreases s.len(),
{
    if s.len() > 0 && s.last() == '/' {
        let d = s.drop_last();
        lemma_trimming_takes_the_slashes(d);
        let t = without_slashes(d);
        assert(t =~= s.subrange(0, t.len() as int));
        assert forall|i: int| t.len() <= i < s.len() implies #[trigger] s[i] == '/' by {
            if i < d.len() {
                assert(d[i] == s[i]);
            }
        }
    } else {
        assert(s =~= s.subrange(0, s.len() as int));
    }
}

/// A page holds the names from its start on, in order, below the base: as many
/// as asked for, or the usual number, unless fewer are left. It names the last
/// of them as the place to go on from if and only if names are left.
pub proof fn lemma_page_is_a_run_of_names(p: PrefixPage, base: Seq<char>, v: Seq<Seq<char>>, start: int, limit: int, k: int)
    requires
        is_page(p, base, v, start, limit),
        0 <= start <= v.len(),
        0 <= limit,
    ensures
        ({
            let m = if limit == 0 { 1000 } else { limit };
            let left = v.len() - start;
            &&& left <= m ==> p.prefixes@.len() == left && p.next_token is None
            &&& left > m ==> p.prefixes@.len() == m && (p.next_token matches Some(t) && t@ == v[start + m - 1])
            &&& 0 <= k < p.prefixes@.len() ==> p.prefixes@[k]@ == base + "/"@ + v[start + k]
        }),
{
}

/// The next page goes on behind the name that the last one ended with.
pub proof fn lemma_listing_resumes_behind_the_token(v: Seq<Seq<char>>, token: Seq<char>, start: int, k: int)
    requires
        resumes_at(v, Some(token), start),
        0 <= k < v.len(),
    ensures
        k >= start <==> !text_le(v[k], token),
        resumes_at(v, None, 0),
{
}

/// Sorting keeps the names and puts each before those that come later.
pub proof fn lemma_sorting_keeps_the_names(v: Seq<Seq<char>>, names: Seq<Seq<char>>, i: int, j: int, n: Seq<char>)
    requires
        sorted_as(v, names),
        0 <= i < j < v.len(),
    ensures
        crate::comparator::bytes_le(vstd::utf8::encode_utf8(v[i]), vstd::utf8::encode_utf8(v[j])),
        v.to_multiset().count(n) == names.to_multiset().count(n),
{
}

/// A tier has one root: that of the first entry with its name, and the default
/// one where no entry has it.
pub proof fn lemma_tier_has_one_root(r: TierRegistry, n: Seq<char>, i: int, root: Seq<char>)
    requires
        r.root_text(Some(n), root),
    ensures
        (forall|j: int| 0 <= j < r.tiers@.len() ==> (#[trigger] r.tiers@[j]).name@ != n) ==> root == r.default_root@,
        0 <= i < r.tiers@.len() && r.tiers@[i].name@ == n && (forall|j: int| 0 <= j < i ==> (#[trigger] r.tiers@[j]).name@ != n) ==> root
            == r.tiers@[i].root@,
        r.root_text(None, root) <==> root == r.default_root@,
{
    if exists|k: int| #[trigger] names_tier(r.tiers@, n, k) && root == r.tiers@[k].root@ {
        let k = choose|k: int| #[trigger] names_tier(r.tiers@, n, k) && root == r.tiers@[k].root@;
        assert(r.tiers@[k].name@ == n);
        if 0 <= i < k {
            assert(r.tiers@[i].name@ != n);
        }
    }
}

} // verus!
