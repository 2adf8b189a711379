//! The cache as a sequence of key-value pairs, most recently used first, and
//! what `get` and `put` do to it.
use vstd::prelude::*;

verus! {

/// Some entry of `s` has key `k`.
pub open spec fn has_key<K, V>(s: Seq<(K, V)>, k: K) -> bool {
    exists|i: int| 0 <= i < s.len() && s[i].0 == k
}

/// A position of `s` whose key is `k` (the only one, when keys are distinct).
pub open spec fn index_of<K, V>(s: Seq<(K, V)>, k: K) -> int {
    choose|i: int| 0 <= i < s.len() && s[i].0 == k
}

/// No two entries of `s` share a key.
pub open spec fn distinct_keys<K, V>(s: Seq<(K, V)>) -> bool {
    forall|i: int, j: int| 0 <= i < j < s.len() ==> s[i].0 != s[j].0
}

/// The keys of `s`, as a set.
pub open spec fn key_set<K, V>(s: Seq<(K, V)>) -> Set<K> {
    Set::new(|k: K| has_key(s, k))
}

/// `s` with its entry at position `i` moved to the front.
pub open spec fn promoted<K, V>(s: Seq<(K, V)>, i: int) -> Seq<(K, V)> {
    seq![s[i]] + s.remove(i)
}

/// The value stored under `k` in `s`, if any.
pub open spec fn lookup<K, V>(s: Seq<(K, V)>, k: K) -> Option<V> {
    if has_key(s, k) {
        Some(s[index_of(s, k)].1)
    } else {
        None
    }
}

/// The recency order after a `get` of `k`: a present key moves to the front.
pub open spec fn after_get<K, V>(s: Seq<(K, V)>, k: K) -> Seq<(K, V)> {
    if has_key(s, k) {
        promoted(s, index_of(s, k))
    } else {
        s
    }
}

/// The recency order after a `put` of `(k, v)` into a cache of capacity `cap`:
/// a present key gets the new value and moves to the front; a new key goes to
/// the front, and when the cache was full the last (least recently used)
/// entry leaves.
pub open spec fn after_put<K, V>(s: Seq<(K, V)>, cap: nat, k: K, v: V) -> Seq<(K, V)> {
    if has_key(s, k) {
        seq![(k, v)] + s.remove(index_of(s, k))
    } else if s.len() >= cap {
        seq![(k, v)] + s.drop_last()
    } else {
        seq![(k, v)] + s
    }
}

/// With distinct keys, `index_of` finds the one position holding the key.
pub proof fn lemma_index_of<K, V>(s: Seq<(K, V)>, i: int)
    requires
        distinct_keys(s),
        0 <= i < s.len(),
    ensures
        has_key(s, s[i].0),
        index_of(s, s[i].0) == i,
{
    let k = s[i].0;
    assert(has_key(s, k));
    let j = index_of(s, k);
    if j < i {
        assert(s[j].0 != s[i].0);
    } else if i < j {
        assert(s[i].0 != s[j].0);
    }
}

/// Changing the value at position `p` and then promoting it is putting the
/// new pair in front of the rest.
pub proof fn lemma_promote_updated<K, V>(s: Seq<(K, V)>, p: int, v: V)
    requires
        0 <= p < s.len(),
    ensures
        promoted(s.update(p, (s[p].0, v)), p) == seq![(s[p].0, v)] + s.remove(p),
{
    assert(promoted(s.update(p, (s[p].0, v)), p) =~= seq![(s[p].0, v)] + s.remove(p));
}

} // verus!
