//! Properties of the recency model that `get` and `put` follow.
use vstd::prelude::*;
use crate::model::{
    after_get, after_put, distinct_keys, has_key, index_of, key_set, lemma_index_of, lookup, promoted,
};

verus! {

/// The recency order after putting each pair of `ops`, first to last, into a
/// cache of capacity `cap` that held `s`.
pub open spec fn put_all<K, V>(s: Seq<(K, V)>, cap: nat, ops: Seq<(K, V)>) -> Seq<(K, V)>
    decreases ops.len(),
{
    if ops.len() == 0 {
        s
    } else {
        let prior = put_all(s, cap, ops.drop_last());
        after_put(prior, cap, ops.last().0, ops.last().1)
    }
}

/// `ops` backwards: the last put is the most recently used.
pub open spec fn newest_first<K, V>(ops: Seq<(K, V)>) -> Seq<(K, V)> {
    Seq::new(ops.len(), |i: int| ops[ops.len() - 1 - i])
}

/// One `put` never takes a cache past its capacity.
pub proof fn lemma_put_within_capacity<K, V>(s: Seq<(K, V)>, cap: nat, k: K, v: V)
    requires
        0 < cap,
        s.len() <= cap,
    ensures
        after_put(s, cap, k, v).len() <= cap,
{
}

/// Any run of `put`s into an empty cache of positive capacity leaves no more
/// entries than the capacity.
pub proof fn lemma_puts_within_capacity<K, V>(cap: nat, ops: Seq<(K, V)>)
    requires
        0 < cap,
    ensures
        put_all(Seq::empty(), cap, ops).len() <= cap,
    decreases ops.len(),
{
    if ops.len() > 0 {
        lemma_puts_within_capacity(cap, ops.drop_last());
        lemma_put_within_capacity(put_all(Seq::empty(), cap, ops.drop_last()), cap, ops.last().0, ops.last().1);
    }
}

/// Putting at most `cap` pairs with distinct keys into an empty cache evicts
/// nothing and leaves them newest first.
pub proof fn lemma_puts_fill<K, V>(cap: nat, ops: Seq<(K, V)>)
    requires
        ops.len() <= cap,
        distinct_keys(ops),
    ensures
        put_all(Seq::empty(), cap, ops) == newest_first(ops),
    decreases ops.len(),
{
    if ops.len() > 0 {
        let init = ops.drop_last();
        assert(distinct_keys(init));
        lemma_puts_fill(cap, init);
        let prior = newest_first(init);
        let last = ops.last();
        assert(!has_key(prior, last.0)) by {
            if has_key(prior, last.0) {
                let i = choose|i: int| 0 <= i < prior.len() && prior[i].0 == last.0;
                assert(ops[init.len() - 1 - i].0 != ops[ops.len() - 1].0);
            }
        }
        assert(after_put(prior, cap, last.0, last.1) =~= newest_first(ops));
    }
}

/// Putting pairs with distinct keys into an empty cache of positive capacity
/// `cap` keeps exactly the newest `min(count, cap)` of them, newest first:
/// the earlier ones were evicted in the order they were put.
pub proof fn lemma_puts_keep_newest<K, V>(cap: nat, ops: Seq<(K, V)>)
    requires
        0 < cap,
        distinct_keys(ops),
    ensures
        put_all(Seq::empty(), cap, ops) == newest_first(ops).take(
            if ops.len() <= cap { ops.len() as int } else { cap as int },
        ),
    decreases ops.len(),
{
    if ops.len() > 0 {
        let init = ops.drop_last();
        assert(distinct_keys(init));
        lemma_puts_keep_newest(cap, init);
        let m = if init.len() <= cap { init.len() as int } else { cap as int };
        let prior = newest_first(init).take(m);
        let last = ops.last();
        assert(!has_key(prior, last.0)) by {
            if has_key(prior, last.0) {
                let i = choose|i: int| 0 <= i < prior.len() && prior[i].0 == last.0;
                assert(ops[init.len() - 1 - i].0 != ops[ops.len() - 1].0);
            }
        }
        let n = if ops.len() <= cap { ops.len() as int } else { cap as int };
        if prior.len() >= cap {
            assert(after_put(prior, cap, last.0, last.1) =~= newest_first(ops).take(n));
        } else {
            assert(after_put(prior, cap, last.0, last.1) =~= newest_first(ops).take(n));
        }
    } else {
        assert(newest_first(ops).take(0) =~= Seq::<(K, V)>::empty());
    }
}

/// With `cap` distinct keys put into an empty cache of capacity `cap` (at
/// least two), a `get` of the first key and then a `put` of a new key evict
/// the second key put, the least recently used one, and keep the first.
pub proof fn lemma_get_protects_from_eviction<K, V>(cap: nat, ops: Seq<(K, V)>, k: K, v: V)
    requires
        2 <= cap,
        ops.len() == cap,
        distinct_keys(ops),
        !has_key(ops, k),
    ensures
        ({
            let full = put_all(Seq::empty(), cap, ops);
            let after = after_put(after_get(full, ops[0].0), cap, k, v);
            &&& !has_key(after, ops[1].0)
            &&& lookup(after, ops[0].0) == Some(ops[0].1)
            &&& lookup(after, k) == Some(v)
            &&& after.len() == cap
        }),
{
    let n = ops.len() as int;
    lemma_puts_fill(cap, ops);
    let full = newest_first(ops);
    assert(distinct_keys(full)) by {
        assert forall|i: int, j: int| 0 <= i < j < full.len() implies full[i].0 != full[j].0 by {
            assert(ops[n - 1 - j].0 != ops[n - 1 - i].0);
        }
    }
    assert(full[n - 1] == ops[0]);
    lemma_index_of(full, n - 1);
    let got = promoted(full, n - 1);
    assert(after_get(full, ops[0].0) == got);
    assert(!has_key(got, k)) by {
        if has_key(got, k) {
            let i = choose|i: int| 0 <= i < got.len() && got[i].0 == k;
            if i == 0 {
                assert(ops[0].0 == k);
            } else {
                assert(ops[n - i].0 == k);
            }
        }
    }
    let after = seq![(k, v)] + got.drop_last();
    assert(after_put(got, cap, k, v) == after);
    assert(!has_key(after, ops[1].0)) by {
        if has_key(after, ops[1].0) {
            let i = choose|i: int| 0 <= i < after.len() && after[i].0 == ops[1].0;
            if i == 0 {
                assert(!has_key(ops, k) && ops[1].0 == k);
                assert(false);
            } else if i == 1 {
                assert(ops[0].0 != ops[1].0);
            } else {
                assert(after[i] == ops[n + 1 - i]);
                assert(ops[1].0 != ops[n + 1 - i].0);
            }
        }
    }
    assert(distinct_keys(after)) by {
        assert forall|i: int, j: int| 0 <= i < j < after.len() implies after[i].0 != after[j].0 by {
            if i == 0 {
                if j == 1 {
                    assert(ops[0].0 != k);
                } else {
                    assert(ops[n + 1 - j].0 != k);
                }
            } else if i == 1 {
                assert(ops[0].0 != ops[n + 1 - j].0);
            } else {
                assert(ops[n + 1 - j].0 != ops[n + 1 - i].0);
            }
        }
    }
    lemma_index_of(after, 0);
    lemma_index_of(after, 1);
}

/// Putting a key that is present replaces its value, keeps the same keys and
/// the same number of entries, and evicts nothing.
pub proof fn lemma_put_present_updates<K, V>(s: Seq<(K, V)>, cap: nat, k: K, v: V)
    requires
        distinct_keys(s),
        has_key(s, k),
    ensures
        lookup(after_put(s, cap, k, v), k) == Some(v),
        after_put(s, cap, k, v).len() == s.len(),
        key_set(after_put(s, cap, k, v)) == key_set(s),
{
    let p = index_of(s, k);
    let t = after_put(s, cap, k, v);
    assert(t == seq![(k, v)] + s.remove(p));
    assert(distinct_keys(t)) by {
        assert forall|i: int, j: int| 0 <= i < j < t.len() implies t[i].0 != t[j].0 by {
            let j0 = if j - 1 < p { j - 1 } else { j };
            if i == 0 {
                assert(s[p].0 != s[j0].0);
            } else {
                let i0 = if i - 1 < p { i - 1 } else { i };
                assert(s[i0].0 != s[j0].0);
            }
        }
    }
    lemma_index_of(t, 0);
    assert forall|x: K| key_set(t).contains(x) <==> key_set(s).contains(x) by {
        if has_key(t, x) {
            let i = choose|i: int| 0 <= i < t.len() && t[i].0 == x;
            if i == 0 {
                assert(s[p].0 == x);
            } else {
                let i0 = if i - 1 < p { i - 1 } else { i };
                assert(s[i0].0 == x);
            }
        }
        if has_key(s, x) {
            let i = choose|i: int| 0 <= i < s.len() && s[i].0 == x;
            if i == p {
                assert(t[0].0 == x);
            } else if i < p {
                assert(t[i + 1].0 == x);
            } else {
                assert(t[i].0 == x);
            }
        }
    }
    assert(key_set(t) =~= key_set(s));
}

/// A `get` of the most recently used key leaves the order as it is.
pub proof fn lemma_get_head_is_noop<K, V>(s: Seq<(K, V)>)
    requires
        distinct_keys(s),
        s.len() > 0,
    ensures
        after_get(s, s[0].0) == s,
{
    lemma_index_of(s, 0);
    assert(promoted(s, 0) =~= s);
}

/// Repeating a `get` changes nothing more: the key is already at the head.
pub proof fn lemma_get_twice<K, V>(s: Seq<(K, V)>, k: K)
    requires
        distinct_keys(s),
    ensures
        after_get(after_get(s, k), k) == after_get(s, k),
        lookup(after_get(s, k), k) == lookup(s, k),
{
    if has_key(s, k) {
        let p = index_of(s, k);
        let t = promoted(s, p);
        assert(distinct_keys(t)) by {
            assert forall|i: int, j: int| 0 <= i < j < t.len() implies t[i].0 != t[j].0 by {
                let j0 = if j - 1 < p { j - 1 } else { j };
                if i == 0 {
                    assert(s[p].0 != s[j0].0);
                } else {
                    let i0 = if i - 1 < p { i - 1 } else { i };
                    assert(s[i0].0 != s[j0].0);
                }
            }
        }
        assert(t[0] == s[p]);
        lemma_get_head_is_noop(t);
        lemma_index_of(t, 0);
    } else {
    }
}

} // verus!
