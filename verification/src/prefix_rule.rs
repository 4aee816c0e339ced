//! Rules for the keys that start with a prefix: the longest prefix wins.

use vstd::prelude::*;

verus! {

/// A rule for the keys that start with its prefix.
pub trait PrefixRule {
    spec fn prefix_bytes(&self) -> Seq<u8>;

    /// The prefix of the keys that the rule is for.
    fn prefix(&self) -> (r: &[u8])
        ensures
            r@ == self.prefix_bytes(),
    ;
}

pub open spec fn starts_with(key: Seq<u8>, prefix: Seq<u8>) -> bool {
    prefix.len() <= key.len() && key.take(prefix.len() as int) == prefix
}

/// Whether `key` starts with `prefix`.
pub fn has_prefix(key: &[u8], prefix: &[u8]) -> (r: bool)
    ensures
        r == starts_with(key@, prefix@),
{
    let n = prefix.len();
    if n > key.len() {
        return false;
    }
    let front = &key[0..n];
    assert(front@ =~= key@.take(n as int));
    crate::encoding::bytes_eq(front, prefix)
}

/// Whether rule `i` is for `key`, and no rule for a longer prefix is.
pub open spec fn decides<R: PrefixRule>(rules: Seq<R>, key: Seq<u8>, i: int) -> bool {
    &&& 0 <= i < rules.len()
    &&& starts_with(key, rules[i].prefix_bytes())
    &&& forall|j: int|
        0 <= j < rules.len() && starts_with(key, (#[trigger] rules[j]).prefix_bytes()) ==> rules[j].prefix_bytes().len() <= rules[i].prefix_bytes().len()
}

/// Whether no rule is for `key`.
pub open spec fn undecided<R: PrefixRule>(rules: Seq<R>, key: Seq<u8>) -> bool {
    forall|j: int| 0 <= j < rules.len() ==> !starts_with(key, (#[trigger] rules[j]).prefix_bytes())
}

/// The rule with the longest prefix that `key` starts with.
pub fn longest_prefix<R: PrefixRule>(rules: &Vec<R>, key: &[u8]) -> (r: Option<usize>)
    ensures
        match r {
            Some(i) => decides(rules@, key@, i as int),
            None => undecided(rules@, key@),
        },
{
    let mut best: Option<usize> = None;
    let mut i: usize = 0;
    while i < rules.len()
        invariant
            i <= rules@.len(),
            match best {
                None => forall|j: int| 0 <= j < i ==> !starts_with(key@, (#[trigger] rules@[j]).prefix_bytes()),
                Some(b) => b < i && starts_with(key@, rules@[b as int].prefix_bytes()) && forall|j: int|
                    0 <= j < i && starts_with(key@, (#[trigger] rules@[j]).prefix_bytes()) ==> rules@[j].prefix_bytes().len()
                        <= rules@[b as int].prefix_bytes().len(),
            },
        decreases rules@.len() - i,
    {
        if has_prefix(key, rules[i].prefix()) {
            let longer = match best {
                None => true,
                Some(b) => rules[b].prefix().len() < rules[i].prefix().len(),
            };
            if longer {
                best = Some(i);
            }
        }
        i += 1;
    }
    best
}

/// The rule that decides on a key has the longest prefix of the key, and some
/// rule decides where any has a prefix of it.
pub proof fn lemma_longest_rule_decides<R: PrefixRule>(rules: Seq<R>, key: Seq<u8>, i: int, j: int)
    requires
        decides(rules, key, i),
        0 <= j < rules.len(),
        rules[j].prefix_bytes().is_prefix_of(key),
    ensures
        0 <= i < rules.len(),
        rules[i].prefix_bytes().is_prefix_of(key),
        rules[j].prefix_bytes().len() <= rules[i].prefix_bytes().len(),
        !undecided(rules, key),
{
    assert(key.take(rules[j].prefix_bytes().len() as int) =~= rules[j].prefix_bytes());
    assert(starts_with(key, rules[j].prefix_bytes()));
    let p = rules[i].prefix_bytes();
    assert forall|k: int| 0 <= k < p.len() implies p[k] == key[k] by {
        assert(key.take(p.len() as int)[k] == key[k]);
    }
    assert(p =~= key.subrange(0, p.len() as int));
}

/// Where no rule decides, none has a prefix of the key.
pub proof fn lemma_undecided_keys_have_no_rule<R: PrefixRule>(rules: Seq<R>, key: Seq<u8>, j: int)
    requires
        undecided(rules, key),
        0 <= j < rules.len(),
    ensures
        !rules[j].prefix_bytes().is_prefix_of(key),
{
    if rules[j].prefix_bytes().is_prefix_of(key) {
        assert(key.take(rules[j].prefix_bytes().len() as int) =~= rules[j].prefix_bytes());
        assert(starts_with(key, rules[j].prefix_bytes()));
    }
}

} // verus!
