use std::collections::HashMap;
use std::hash::Hash;
use vstd::prelude::*;
use vstd::pervasive::VecAdditionalExecFns;
use vstd::std_specs::hash::obeys_key_model;
use crate::model::{
    after_get, after_put, distinct_keys, has_key, index_of, key_set, lemma_index_of,
    lemma_promote_updated, lookup, promoted,
};

verus! {

/// `K::clone` hands back a value equal to its argument.
pub open spec fn clone_is_copy<K: Clone>() -> bool {
    forall|a: &K, r: K| #[trigger] call_ensures(K::clone, (a,), r) ==> r == *a
}

/// Why a cache cannot be built.
#[derive(Debug, Clone, Copy, PartialEq, Eq, Structural)]
pub enum LruError {
    /// A cache of capacity zero could hold nothing.
    ZeroCapacity,
}

/// One occupied slot of the arena.
struct Entry<K, V> {
    key: K,
    value: V,
    prev: Option<usize>,
    next: Option<usize>,
}

/// The arena as the proofs see it.
type Slots<K, V> = Seq<Option<Entry<K, V>>>;

spec fn prev_of<K, V>(es: Slots<K, V>, j: usize) -> Option<usize> {
    es[j as int]->Some_0.prev
}

spec fn next_of<K, V>(es: Slots<K, V>, j: usize) -> Option<usize> {
    es[j as int]->Some_0.next
}

spec fn key_of<K, V>(es: Slots<K, V>, j: usize) -> K {
    es[j as int]->Some_0.key
}

spec fn value_of<K, V>(es: Slots<K, V>, j: usize) -> V {
    es[j as int]->Some_0.value
}

/// The first and the last element of `ch`, or `None` when it is empty.
spec fn first_of(ch: Seq<usize>) -> Option<usize> {
    if ch.len() == 0 { None } else { Some(ch[0]) }
}

spec fn last_of(ch: Seq<usize>) -> Option<usize> {
    if ch.len() == 0 { None } else { Some(ch.last()) }
}

/// `ch` lists occupied slots of `es` once each, from head to tail, and the
/// links stored in those slots follow it in both directions.
spec fn links_ok<K, V>(es: Slots<K, V>, ch: Seq<usize>, head: Option<usize>, tail: Option<usize>) -> bool {
    &&& ch.no_duplicates()
    &&& head == first_of(ch)
    &&& tail == last_of(ch)
    &&& forall|i: int| 0 <= i < ch.len() ==> (#[trigger] ch[i] as int) < es.len() && es[ch[i] as int] is Some
    &&& forall|i: int|
        0 <= i < ch.len() ==> prev_of(es, #[trigger] ch[i]) == (if i == 0 {
            None
        } else {
            Some(ch[i - 1])
        })
    &&& forall|i: int|
        0 <= i < ch.len() ==> next_of(es, #[trigger] ch[i]) == (if i == ch.len() - 1 {
            None
        } else {
            Some(ch[i + 1])
        })
}

/// The key and value of each slot of `ch`, in order.
spec fn view_of<K, V>(es: Slots<K, V>, ch: Seq<usize>) -> Seq<(K, V)> {
    ch.map_values(|j: usize| (key_of(es, j), value_of(es, j)))
}

/// `b` is `a` with at most the links of slots changed.
spec fn same_payload<K, V>(a: Slots<K, V>, b: Slots<K, V>) -> bool {
    &&& a.len() == b.len()
    &&& forall|j: int| 0 <= j < a.len() ==> (#[trigger] a[j] is Some) == (b[j] is Some)
    &&& forall|j: int|
        0 <= j < a.len() && #[trigger] a[j] is Some ==> b[j]->Some_0.key == a[j]->Some_0.key
            && b[j]->Some_0.value == a[j]->Some_0.value
}

/// Sets the `prev` link of the occupied slot `i`.
fn set_prev<K, V>(entries: &mut Vec<Option<Entry<K, V>>>, i: usize, p: Option<usize>)
    requires
        i < old(entries)@.len(),
        old(entries)@[i as int] is Some,
    ensures
        final(entries)@ == old(entries)@.update(
            i as int,
            Some(Entry { prev: p, ..old(entries)@[i as int]->Some_0 }),
        ),
{
    let mut slot: Option<Entry<K, V>> = None;
    entries.set_and_swap(i, &mut slot);
    let mut e = slot.unwrap();
    e.prev = p;
    entries.set(i, Some(e));
}

/// Replaces the value held in the occupied slot `i`.
fn set_value<K, V>(entries: &mut Vec<Option<Entry<K, V>>>, i: usize, v: V)
    requires
        i < old(entries)@.len(),
        old(entries)@[i as int] is Some,
    ensures
        final(entries)@ == old(entries)@.update(
            i as int,
            Some(Entry { value: v, ..old(entries)@[i as int]->Some_0 }),
        ),
{
    let mut slot: Option<Entry<K, V>> = None;
    entries.set_and_swap(i, &mut slot);
    let mut e = slot.unwrap();
    e.value = v;
    entries.set(i, Some(e));
}

/// Sets the `next` link of the occupied slot `i`.
fn set_next<K, V>(entries: &mut Vec<Option<Entry<K, V>>>, i: usize, n: Option<usize>)
    requires
        i < old(entries)@.len(),
        old(entries)@[i as int] is Some,
    ensures
        final(entries)@ == old(entries)@.update(
            i as int,
            Some(Entry { next: n, ..old(entries)@[i as int]->Some_0 }),
        ),
{
    let mut slot: Option<Entry<K, V>> = None;
    entries.set_and_swap(i, &mut slot);
    let mut e = slot.unwrap();
    e.next = n;
    entries.set(i, Some(e));
}


/// Takes the slot at position `p` of the chain out of it, relinking its
/// neighbours to each other.
#[verifier::rlimit(40)]
fn unlink<K, V>(
    entries: &mut Vec<Option<Entry<K, V>>>,
    head: &mut Option<usize>,
    tail: &mut Option<usize>,
    idx: usize,
    Ghost(ch): Ghost<Seq<usize>>,
    Ghost(p): Ghost<int>,
)
    requires
        links_ok(old(entries)@, ch, *old(head), *old(tail)),
        0 <= p < ch.len(),
        ch[p] == idx,
    ensures
        links_ok(final(entries)@, ch.remove(p), *final(head), *final(tail)),
        same_payload(old(entries)@, final(entries)@),
        final(entries)@[idx as int] is Some,
{
    let ghost es0 = entries@;
    let prev = entries[idx].as_ref().unwrap().prev;
    let next = entries[idx].as_ref().unwrap().next;
    assert(ch[p] == idx);
    match prev {
        Some(pv) => {
            assert(pv == ch[p - 1]);
            set_next(entries, pv, next);
        },
        None => {
            *head = next;
        },
    }
    match next {
        Some(nx) => {
            assert(nx == ch[p + 1]);
            set_prev(entries, nx, prev);
        },
        None => {
            *tail = prev;
        },
    }
    let ghost nch = ch.remove(p);
    let ghost es = entries@;
    assert forall|i: int| 0 <= i < nch.len() implies #[trigger] nch[i] == (if i < p {
        ch[i]
    } else {
        ch[i + 1]
    }) by {}
    assert forall|a: int, b: int| 0 <= a < b < nch.len() implies nch[a] != nch[b] by {
        let a0 = if a < p { a } else { a + 1 };
        let b0 = if b < p { b } else { b + 1 };
        assert(ch[a0] != ch[b0]);
    }
    assert forall|i: int| 0 <= i < nch.len() implies prev_of(es, #[trigger] nch[i]) == (if i == 0 {
        None
    } else {
        Some(nch[i - 1])
    }) by {
        let i0 = if i < p { i } else { i + 1 };
        assert(ch[i0] == nch[i]);
        assert(prev_of(es0, ch[i0]) == if i0 == 0 { None } else { Some(ch[i0 - 1]) });
        if p > 0 {
            assert(ch[p - 1] != ch[i0] || i0 == p - 1);
        }
    }
    assert forall|i: int| 0 <= i < nch.len() implies next_of(es, #[trigger] nch[i]) == (if i == nch.len() - 1 {
        None
    } else {
        Some(nch[i + 1])
    }) by {
        let i0 = if i < p { i } else { i + 1 };
        assert(ch[i0] == nch[i]);
        assert(next_of(es0, ch[i0]) == if i0 == ch.len() - 1 { None } else { Some(ch[i0 + 1]) });
        if p + 1 < ch.len() {
            assert(ch[p + 1] != ch[i0] || i0 == p + 1);
        }
    }
    assert(nch.len() > 0 ==> nch.last() == nch[nch.len() - 1]);
}

/// Puts the occupied slot `idx`, which is not in the chain, at its head.
fn link_front<K, V>(
    entries: &mut Vec<Option<Entry<K, V>>>,
    head: &mut Option<usize>,
    tail: &mut Option<usize>,
    idx: usize,
    Ghost(ch): Ghost<Seq<usize>>,
)
    requires
        links_ok(old(entries)@, ch, *old(head), *old(tail)),
        idx < old(entries)@.len(),
        old(entries)@[idx as int] is Some,
        !ch.contains(idx),
    ensures
        links_ok(final(entries)@, seq![idx] + ch, *final(head), *final(tail)),
        same_payload(old(entries)@, final(entries)@),
{
    let ghost es0 = entries@;
    let old_head = *head;
    set_prev(entries, idx, None);
    set_next(entries, idx, old_head);
    match old_head {
        Some(h) => {
            assert(h == ch[0]);
            set_prev(entries, h, Some(idx));
        },
        None => {
            *tail = Some(idx);
        },
    }
    *head = Some(idx);
    let ghost nch = seq![idx] + ch;
    let ghost es = entries@;
    assert forall|i: int| 0 < i < nch.len() implies #[trigger] nch[i] == ch[i - 1] by {}
    assert forall|a: int, b: int| 0 <= a < b < nch.len() implies nch[a] != nch[b] by {
        if a > 0 {
            assert(ch[a - 1] != ch[b - 1]);
        } else {
            assert(ch.contains(ch[b - 1]));
        }
    }
    assert forall|i: int| 0 < i < nch.len() implies prev_of(es, #[trigger] nch[i]) == Some(nch[i - 1]) && next_of(es, nch[i]) == (if i == nch.len() - 1 {
        None
    } else {
        Some(nch[i + 1])
    }) by {
        assert(nch[i] == ch[i - 1]);
        assert(ch[i - 1] != idx);
        assert(prev_of(es0, ch[i - 1]) == if i - 1 == 0 { None } else { Some(ch[i - 2]) });
        assert(next_of(es0, ch[i - 1]) == if i - 1 == ch.len() - 1 { None } else { Some(ch[i]) });
    }
    assert(nch[0] == idx);
}


/// Relinking slots changes no key or value that a chain reads.
proof fn lemma_view_same_payload<K, V>(a: Slots<K, V>, b: Slots<K, V>, ch: Seq<usize>)
    requires
        same_payload(a, b),
        forall|i: int| 0 <= i < ch.len() ==> (#[trigger] ch[i] as int) < a.len() && a[ch[i] as int] is Some,
    ensures
        view_of(a, ch) == view_of(b, ch),
{
    assert forall|i: int| 0 <= i < ch.len() implies #[trigger] view_of(a, ch)[i] == view_of(b, ch)[i] by {
        assert(a[ch[i] as int] is Some);
    }
    assert(view_of(a, ch) =~= view_of(b, ch));
}

/// The index leads from the key of each slot of `ch` to that slot, and holds
/// no other key.
spec fn index_ok<K, V>(m: Map<K, usize>, es: Slots<K, V>, ch: Seq<usize>) -> bool {
    &&& forall|i: int|
        0 <= i < ch.len() ==> m.contains_key(key_of(es, #[trigger] ch[i])) && m[key_of(es, ch[i])] == ch[i]
    &&& forall|k: K| #[trigger] m.contains_key(k) ==> ch.contains(m[k]) && key_of(es, m[k]) == k
}

/// `free` lists vacant slots once each, and with the chain accounts for the
/// whole arena.
spec fn free_ok<K, V>(free: Seq<usize>, es: Slots<K, V>, ch: Seq<usize>) -> bool {
    &&& forall|i: int| 0 <= i < free.len() ==> (#[trigger] free[i] as int) < es.len() && es[free[i] as int] is None
    &&& free.no_duplicates()
    &&& free.len() + ch.len() == es.len()
}

/// Relinking the slots of a chain into another order of the same slots
/// keeps the index and the free list right.
proof fn lemma_reorder<K, V>(
    m: Map<K, usize>,
    free: Seq<usize>,
    es0: Slots<K, V>,
    es: Slots<K, V>,
    ch: Seq<usize>,
    nch: Seq<usize>,
)
    requires
        index_ok(m, es0, ch),
        free_ok(free, es0, ch),
        same_payload(es0, es),
        forall|i: int| 0 <= i < ch.len() ==> (#[trigger] ch[i] as int) < es0.len() && es0[ch[i] as int] is Some,
        nch.len() == ch.len(),
        forall|x: usize| nch.contains(x) <==> ch.contains(x),
    ensures
        index_ok(m, es, nch),
        free_ok(free, es, nch),
        view_of(es0, nch) == view_of(es, nch),
{
    assert forall|i: int| 0 <= i < nch.len() implies m.contains_key(key_of(es, #[trigger] nch[i]))
        && m[key_of(es, nch[i])] == nch[i] by {
        assert(nch.contains(nch[i]));
        let j = choose|j: int| 0 <= j < ch.len() && ch[j] == nch[i];
        assert(es0[ch[j] as int] is Some);
    }
    assert forall|k: K| #[trigger] m.contains_key(k) implies nch.contains(m[k]) && key_of(es, m[k]) == k by {
        let j = choose|j: int| 0 <= j < ch.len() && ch[j] == m[k];
        assert(es0[ch[j] as int] is Some);
    }
    assert forall|i: int| 0 <= i < free.len() implies (#[trigger] free[i] as int) < es.len() && es[free[i] as int] is None by {
        assert(es0[free[i] as int] is None);
    }
    assert forall|i: int| 0 <= i < nch.len() implies (#[trigger] nch[i] as int) < es0.len() && es0[nch[i] as int] is Some by {
        assert(nch.contains(nch[i]));
    }
    lemma_view_same_payload(es0, es, nch);
}

/// In a well-formed cache the keys of the chain are distinct.
proof fn lemma_distinct<K: Eq + Hash + Clone, V>(c: &LRUCache<K, V>)
    requires
        c.wf(),
    ensures
        distinct_keys(c@),
        c@.len() == c.chain@.len(),
        forall|i: int| 0 <= i < c@.len() ==> #[trigger] c@[i] == (key_of(c.entries@, c.chain@[i]), value_of(c.entries@, c.chain@[i])),
{
    let ch = c.chain@;
    let es = c.entries@;
    assert forall|i: int, j: int| 0 <= i < j < c@.len() implies c@[i].0 != c@[j].0 by {
        assert(c.map@[key_of(es, ch[i])] == ch[i]);
        assert(c.map@[key_of(es, ch[j])] == ch[j]);
        assert(ch[i] != ch[j]);
    }
}

/// In a well-formed cache the index holds exactly the keys of the entries.
proof fn lemma_index_keys<K: Eq + Hash + Clone, V>(c: &LRUCache<K, V>)
    requires
        c.wf(),
    ensures
        forall|k: K| #[trigger] c.map@.contains_key(k) <==> has_key(c@, k),
{
    lemma_distinct(c);
    let ch = c.chain@;
    assert forall|k: K| #[trigger] c.map@.contains_key(k) <==> has_key(c@, k) by {
        if c.map@.contains_key(k) {
            let j = choose|j: int| 0 <= j < ch.len() && ch[j] == c.map@[k];
            assert(c@[j].0 == k);
        }
        if has_key(c@, k) {
            let j = choose|j: int| 0 <= j < c@.len() && c@[j].0 == k;
            assert(key_of(c.entries@, ch[j]) == k);
        }
    }
}


/// A least-recently-used cache holding at most `capacity` entries.
///
/// Entries live in an arena of slots; `map` leads from a key to its slot,
/// and the slots are chained by `prev` / `next` from the most recently used
/// (`head`) to the least recently used (`tail`). Slots freed by eviction are
/// kept in `free` and reused, so the arena never outgrows the capacity.
pub struct LRUCache<K, V> {
    capacity: usize,
    map: HashMap<K, usize>,
    entries: Vec<Option<Entry<K, V>>>,
    free: Vec<usize>,
    head: Option<usize>,
    tail: Option<usize>,
    chain: Ghost<Seq<usize>>,
}

impl<K, V> View for LRUCache<K, V> {
    type V = Seq<(K, V)>;

    /// The entries from the most recently used to the least recently used.
    closed spec fn view(&self) -> Seq<(K, V)> {
        view_of(self.entries@, self.chain@)
    }
}

impl<K: Eq + Hash + Clone, V> LRUCache<K, V> {
    /// The capacity fixed at construction.
    pub closed spec fn capacity(&self) -> nat {
        self.capacity as nat
    }

    /// The index, the chain and the arena agree: the chain runs once through
    /// every occupied slot, its links go both ways, the index leads from each
    /// key in the chain to its slot and from nowhere else, and the free list
    /// holds the vacant slots.
    pub closed spec fn wf(&self) -> bool {
        let es = self.entries@;
        let ch = self.chain@;
        &&& obeys_key_model::<K>()
        &&& clone_is_copy::<K>()
        &&& 0 < self.capacity
        &&& ch.len() <= self.capacity
        &&& es.len() <= self.capacity
        &&& links_ok(es, ch, self.head, self.tail)
        &&& index_ok(self.map@, es, ch)
        &&& free_ok(self.free@, es, ch)
    }

    /// The keys that the index holds.
    pub closed spec fn index_keys(&self) -> Set<K> {
        self.map@.dom()
    }
}

impl<K: Eq + Hash + Clone, V> LRUCache<K, V> {
    /// An empty cache that will hold at most `capacity` entries; a capacity
    /// of zero is refused. Keys must hash and compare by their value, and
    /// clone to an equal key, as the integer types and `String` do.
    pub fn new(capacity: usize) -> (r: Result<Self, LruError>)
        requires
            obeys_key_model::<K>(),
            clone_is_copy::<K>(),
        ensures
            capacity == 0 <==> r is Err,
            r is Err ==> r == Err::<Self, LruError>(LruError::ZeroCapacity),
            r matches Ok(c) ==> c.wf() && c@ == Seq::<(K, V)>::empty() && c.capacity() == capacity,
    {
        if capacity == 0 {
            return Err(LruError::ZeroCapacity);
        }
        let c = LRUCache {
            capacity,
            map: HashMap::with_capacity(capacity),
            entries: Vec::with_capacity(capacity),
            free: Vec::new(),
            head: None,
            tail: None,
            chain: Ghost(Seq::empty()),
        };
        assert(c@ =~= Seq::<(K, V)>::empty());
        assert(c.map@ =~= Map::<K, usize>::empty());
        Ok(c)
    }

    /// The number of entries held.
    pub fn len(&self) -> (r: usize)
        requires
            self.wf(),
        ensures
            r == self@.len(),
    {
        self.entries.len() - self.free.len()
    }

    /// Evicts the least recently used entry: its key leaves the index and its
    /// slot joins the free list. An empty cache stays as it is.
    #[verifier::rlimit(40)]
    fn remove_tail(&mut self)
        requires
            old(self).wf(),
        ensures
            final(self).wf(),
            final(self).capacity == old(self).capacity,
            final(self)@ == (if old(self)@.len() == 0 {
                old(self)@
            } else {
                old(self)@.drop_last()
            }),
            old(self)@.len() > 0 ==> {
                &&& old(self).tail is Some
                &&& final(self).chain@ == old(self).chain@.drop_last()
                &&& final(self).free@ == old(self).free@.push(old(self).tail->Some_0)
                &&& final(self).map@ == old(self).map@.remove(old(self)@.last().0)
                &&& final(self).entries@.len() == old(self).entries@.len()
                &&& final(self).entries@[old(self).tail->Some_0 as int] is None
            },
            old(self)@.len() == 0 ==> {
                &&& final(self).entries@ == old(self).entries@
                &&& final(self).map@ == old(self).map@
                &&& final(self).free@ == old(self).free@
                &&& final(self).head == old(self).head
                &&& final(self).tail == old(self).tail
                &&& final(self).chain@ == old(self).chain@
            },
    {
        broadcast use {
            vstd::std_specs::hash::axiom_deref_key_removed,
            vstd::std_specs::hash::axiom_random_state_builds_valid_hashers,
        };

        if let Some(tail) = self.tail {
            let ghost es0 = self.entries@;
            let ghost ch = self.chain@;
            let ghost m0 = self.map@;
            let ghost p = ch.len() - 1;
            proof {
                lemma_distinct(self);
            }
            unlink(&mut self.entries, &mut self.head, &mut self.tail, tail, Ghost(ch), Ghost(p));
            let ghost es1 = self.entries@;
            let ghost nch = ch.remove(p);
            assert(nch =~= ch.drop_last());
            self.chain = Ghost(nch);
            let mut slot: Option<Entry<K, V>> = None;
            self.entries.set_and_swap(tail, &mut slot);
            let entry = slot.unwrap();
            self.map.remove(&entry.key);
            self.free.push(tail);
            proof {
                let es = self.entries@;
                let kt = key_of(es0, tail);
                assert(es1[tail as int] is Some);
                assert(entry.key == kt);
                assert forall|i: int| 0 <= i < nch.len() implies #[trigger] nch[i] != tail
                    && nch[i] == ch[i] by {
                    assert(ch[i] != ch[p]);
                }
                assert(es =~= es1.update(tail as int, None));
                assert forall|i: int| 0 <= i < nch.len() implies (#[trigger] nch[i] as int) < es.len()
                    && es[nch[i] as int] is Some by {}
                assert forall|i: int| 0 <= i < nch.len() implies prev_of(es, #[trigger] nch[i]) == prev_of(es1, nch[i])
                    && next_of(es, nch[i]) == next_of(es1, nch[i]) by {}
                assert forall|i: int| 0 <= i < nch.len() implies self.map@.contains_key(key_of(es, #[trigger] nch[i]))
                    && self.map@[key_of(es, nch[i])] == nch[i] by {
                    assert(es0[ch[i] as int] is Some);
                    assert(m0[key_of(es0, ch[i])] == ch[i]);
                    assert(m0[kt] == tail);
                }
                assert forall|k: K| #[trigger] self.map@.contains_key(k) implies nch.contains(self.map@[k])
                    && key_of(es, self.map@[k]) == k by {
                    assert(m0.contains_key(k));
                    let j = choose|j: int| 0 <= j < ch.len() && ch[j] == m0[k];
                    if j == p {
                        assert(key_of(es0, tail) == k);
                    }
                    assert(nch[j] == ch[j]);
                    assert(es0[ch[j] as int] is Some);
                }
                assert forall|i: int| 0 <= i < self.free@.len() implies (#[trigger] self.free@[i] as int) < es.len()
                    && es[self.free@[i] as int] is None by {
                    if i < self.free@.len() - 1 {
                        assert(es0[self.free@[i] as int] is None);
                    }
                }
                assert forall|a: int, b: int| 0 <= a < b < self.free@.len() implies self.free@[a] != self.free@[b] by {
                    if b == self.free@.len() - 1 {
                        assert(es0[self.free@[a] as int] is None);
                    }
                }
                assert forall|i: int| 0 <= i < nch.len() implies #[trigger] view_of(es, nch)[i] == view_of(es0, ch)[i] by {
                    assert(es0[ch[i] as int] is Some);
                }
                assert(view_of(es, nch) =~= view_of(es0, ch).drop_last());
                assert(view_of(es0, ch).last().0 == kt);
                assert(self.map@ == m0.remove(kt));
            }
        }
    }

    /// Stores `value` in the slot `index`, at position `p` of the chain.
    fn replace_value(&mut self, index: usize, value: V, Ghost(p): Ghost<int>)
        requires
            old(self).wf(),
            0 <= p < old(self).chain@.len(),
            old(self).chain@[p] == index,
        ensures
            final(self).wf(),
            final(self).capacity == old(self).capacity,
            final(self).chain@ == old(self).chain@,
            final(self)@ == old(self)@.update(p, (old(self)@[p].0, value)),
    {
        let ghost es0 = self.entries@;
        let ghost ch = self.chain@;
        proof {
            lemma_distinct(self);
        }
        set_value(&mut self.entries, index, value);
        proof {
            let es = self.entries@;
            assert forall|i: int| 0 <= i < ch.len() implies (#[trigger] ch[i] as int) < es.len() && es[ch[i] as int] is Some
                && prev_of(es, ch[i]) == prev_of(es0, ch[i]) && next_of(es, ch[i]) == next_of(es0, ch[i])
                && key_of(es, ch[i]) == key_of(es0, ch[i]) by {}
            assert forall|k: K| #[trigger] self.map@.contains_key(k) implies ch.contains(self.map@[k])
                && key_of(es, self.map@[k]) == k by {
                let j = choose|j: int| 0 <= j < ch.len() && ch[j] == self.map@[k];
                assert(es0[ch[j] as int] is Some);
            }
            assert forall|i: int| 0 <= i < self.free@.len() implies (#[trigger] self.free@[i] as int) < es.len()
                && es[self.free@[i] as int] is None by {
                assert(es0[self.free@[i] as int] is None);
            }
            assert forall|i: int| 0 <= i < ch.len() implies #[trigger] view_of(es, ch)[i] == view_of(es0, ch).update(p, (view_of(es0, ch)[p].0, value))[i] by {
                if i != p {
                    assert(ch[i] != ch[p]);
                }
            }
            assert(view_of(es, ch) =~= view_of(es0, ch).update(p, (view_of(es0, ch)[p].0, value)));
        }
    }

    /// Places a new entry for `key`, absent from the cache, at the head, in a
    /// slot taken from the free list or else appended to the arena.
    #[verifier::rlimit(60)]
    fn insert_front(&mut self, key: K, value: V)
        requires
            old(self).wf(),
            !has_key(old(self)@, key),
            old(self)@.len() < old(self).capacity,
        ensures
            final(self).wf(),
            final(self).capacity == old(self).capacity,
            final(self)@ == seq![(key, value)] + old(self)@,
    {
        broadcast use vstd::std_specs::hash::axiom_random_state_builds_valid_hashers;

        let ghost es0 = self.entries@;
        let ghost ch = self.chain@;
        let ghost m0 = self.map@;
        let ghost f0 = self.free@;
        proof {
            lemma_distinct(self);
            lemma_index_keys(self);
        }
        let k2 = key.clone();
        let entry = Entry { key: k2, value, prev: None, next: None };
        let index = match self.free.pop() {
            Some(f) => {
                assert(f0[f0.len() - 1] == f);
                self.entries.set(f, Some(entry));
                f
            },
            None => {
                let n = self.entries.len();
                self.entries.push(Some(entry));
                n
            },
        };
        let ghost es1 = self.entries@;
        proof {
            assert forall|i: int| 0 <= i < ch.len() implies #[trigger] ch[i] != index by {
                assert(es0[ch[i] as int] is Some);
            }
            assert(!ch.contains(index));
            assert forall|i: int| 0 <= i < ch.len() implies (#[trigger] ch[i] as int) < es1.len() && es1[ch[i] as int] is Some
                && es1[ch[i] as int] == es0[ch[i] as int] by {}
            assert forall|i: int| 0 <= i < ch.len() implies prev_of(es1, #[trigger] ch[i]) == prev_of(es0, ch[i])
                && next_of(es1, ch[i]) == next_of(es0, ch[i]) by {}
        }
        link_front(&mut self.entries, &mut self.head, &mut self.tail, index, Ghost(ch));
        let ghost nch = seq![index] + ch;
        self.chain = Ghost(nch);
        self.map.insert(key, index);
        proof {
            let es = self.entries@;
            let m = self.map@;
            assert(m == m0.insert(key, index));
            assert(!m0.contains_key(key));
            assert forall|i: int| 0 < i < nch.len() implies #[trigger] nch[i] == ch[i - 1] by {}
            assert forall|i: int| 0 <= i < nch.len() implies m.contains_key(key_of(es, #[trigger] nch[i]))
                && m[key_of(es, nch[i])] == nch[i] by {
                if i > 0 {
                    assert(es0[ch[i - 1] as int] is Some);
                    assert(key_of(es, nch[i]) == key_of(es0, ch[i - 1]));
                    assert(m0.contains_key(key_of(es0, ch[i - 1])));
                }
            }
            assert forall|k: K| #[trigger] m.contains_key(k) implies nch.contains(m[k]) && key_of(es, m[k]) == k by {
                if k == key {
                    assert(nch[0] == index);
                } else {
                    assert(m0.contains_key(k));
                    let j = choose|j: int| 0 <= j < ch.len() && ch[j] == m0[k];
                    assert(nch[j + 1] == ch[j]);
                    assert(es0[ch[j] as int] is Some);
                }
            }
            assert forall|i: int| 0 <= i < self.free@.len() implies (#[trigger] self.free@[i] as int) < es.len()
                && es[self.free@[i] as int] is None by {
                assert(self.free@[i] == f0[i]);
                assert(es0[f0[i] as int] is None);
                assert(f0[i] != index);
                assert(es1[f0[i] as int] is None);
            }
            assert(self.free@ =~= f0.subrange(0, self.free@.len() as int));
            assert forall|a: int, b: int| 0 <= a < b < self.free@.len() implies self.free@[a] != self.free@[b] by {
                assert(f0[a] != f0[b]);
            }
            assert forall|i: int| 0 <= i < nch.len() implies #[trigger] view_of(es, nch)[i] == (seq![(key, value)] + view_of(es0, ch))[i] by {
                if i > 0 {
                    assert(es0[ch[i - 1] as int] is Some);
                }
            }
            assert(view_of(es, nch) =~= seq![(key, value)] + view_of(es0, ch));
        }
    }

    /// Gives the slot `index`, at position `p` of the chain, a new value and
    /// promotes it to the head.
    fn update_present(&mut self, index: usize, value: V, Ghost(p): Ghost<int>)
        requires
            old(self).wf(),
            0 <= p < old(self).chain@.len(),
            old(self).chain@[p] == index,
        ensures
            final(self).wf(),
            final(self).capacity == old(self).capacity,
            final(self)@ == seq![(old(self)@[p].0, value)] + old(self)@.remove(p),
    {
        let ghost s0 = self@;
        proof {
            lemma_distinct(self);
        }
        self.replace_value(index, value, Ghost(p));
        self.move_to_front(index, Ghost(p));
        proof {
            lemma_promote_updated(s0, p, value);
        }
    }

    /// Evicts the least recently used entry when the cache is full.
    fn evict_if_full(&mut self)
        requires
            old(self).wf(),
        ensures
            final(self).wf(),
            final(self).capacity == old(self).capacity,
            final(self)@ == (if old(self)@.len() >= old(self).capacity {
                old(self)@.drop_last()
            } else {
                old(self)@
            }),
            final(self)@.len() < final(self).capacity,
    {
        proof {
            lemma_distinct(self);
        }
        if self.entries.len() - self.free.len() >= self.capacity {
            self.remove_tail();
        }
    }

    /// Looks `key` up. A present key is promoted to most recently used and its
    /// value is returned; an absent key changes nothing.
    pub fn get(&mut self, key: &K) -> (r: Option<&V>)
        requires
            old(self).wf(),
        ensures
            final(self).wf(),
            final(self).capacity() == old(self).capacity(),
            final(self)@ == after_get(old(self)@, *key),
            match r {
                Some(v) => lookup(old(self)@, *key) == Some(*v),
                None => lookup(old(self)@, *key) == None::<V>,
            },
    {
        broadcast use {
            vstd::std_specs::hash::axiom_maps_deref_key_to_value,
            vstd::std_specs::hash::axiom_contains_deref_key,
            vstd::std_specs::hash::axiom_random_state_builds_valid_hashers,
        };

        proof {
            lemma_distinct(self);
            lemma_index_keys(self);
        }
        let found = match self.map.get(key) {
            Some(i) => Some(*i),
            None => None,
        };
        match found {
            Some(index) => {
                let ghost ch = self.chain@;
                let ghost p = choose|p: int| 0 <= p < ch.len() && ch[p] == index;
                proof {
                    assert(self@[p].0 == *key);
                    lemma_index_of(self@, p);
                }
                let ghost s0 = self@;
                self.move_to_front(index, Ghost(p));
                proof {
                    lemma_distinct(self);
                    assert(self.chain@[0] == index);
                    assert(self.entries@[index as int] is Some);
                    assert(self@[0] == s0[p]);
                    assert(value_of(self.entries@, index) == s0[p].1);
                }
                Some(&self.entries[index].as_ref().unwrap().value)
            },
            None => None,
        }
    }

    /// Stores `value` under `key` and makes it the most recently used entry.
    /// A present key keeps its place in the index and only gets the new value;
    /// a new key, when the cache is full, first evicts the least recently used
    /// entry.
    pub fn put(&mut self, key: K, value: V)
        requires
            old(self).wf(),
        ensures
            final(self).wf(),
            final(self).capacity() == old(self).capacity(),
            final(self)@ == after_put(old(self)@, old(self).capacity(), key, value),
    {
        broadcast use {
            vstd::std_specs::hash::axiom_maps_deref_key_to_value,
            vstd::std_specs::hash::axiom_contains_deref_key,
            vstd::std_specs::hash::axiom_random_state_builds_valid_hashers,
        };

        proof {
            lemma_distinct(self);
            lemma_index_keys(self);
        }
        let ghost s0 = self@;
        let found = match self.map.get(&key) {
            Some(i) => Some(*i),
            None => None,
        };
        match found {
            Some(index) => {
                let ghost ch = self.chain@;
                let ghost p = choose|p: int| 0 <= p < ch.len() && ch[p] == index;
                proof {
                    assert(self@[p].0 == key);
                    lemma_index_of(self@, p);
                }
                self.update_present(index, value, Ghost(p));
            },
            None => {
                self.evict_if_full();
                proof {
                    assert forall|i: int| 0 <= i < self@.len() implies #[trigger] self@[i].0 != key by {
                        assert(s0[i].0 != key);
                    }
                }
                self.insert_front(key, value);
            },
        }
    }

    /// Moves the slot `index`, at position `p` of the chain, to the head; a
    /// slot already at the head stays where it is.
    #[verifier::rlimit(80)]
    fn move_to_front(&mut self, index: usize, Ghost(p): Ghost<int>)
        requires
            old(self).wf(),
            0 <= p < old(self).chain@.len(),
            old(self).chain@[p] == index,
        ensures
            final(self).wf(),
            final(self).capacity == old(self).capacity,
            final(self)@ == promoted(old(self)@, p),
            final(self).chain@ == seq![index] + old(self).chain@.remove(p),
            final(self).map@ == old(self).map@,
            final(self).free@ == old(self).free@,
            same_payload(old(self).entries@, final(self).entries@),
            p == 0 ==> final(self).entries@ == old(self).entries@ && final(self).head == old(self).head
                && final(self).tail == old(self).tail && final(self).chain@ == old(self).chain@,
    {
        let ghost es0 = self.entries@;
        let ghost ch = self.chain@;
        proof {
            lemma_distinct(self);
        }
        if Some(index) == self.head {
            assert(p == 0) by {
                if p != 0 {
                    assert(ch[0] != ch[p]);
                }
            }
            assert(promoted(self@, p) =~= self@);
            assert(seq![index] + ch.remove(p) =~= ch);
            return;
        }
        unlink(&mut self.entries, &mut self.head, &mut self.tail, index, Ghost(ch), Ghost(p));
        proof {
            assert forall|i: int| 0 <= i < ch.remove(p).len() implies #[trigger] ch.remove(p)[i] != index by {
                let i0 = if i < p { i } else { i + 1 };
                assert(ch[i0] != ch[p]);
            }
        }
        link_front(&mut self.entries, &mut self.head, &mut self.tail, index, Ghost(ch.remove(p)));
        let ghost nch = seq![index] + ch.remove(p);
        self.chain = Ghost(nch);
        proof {
            assert forall|i: int| 0 <= i < nch.len() implies #[trigger] nch[i] == (if i == 0 {
                ch[p]
            } else if i <= p {
                ch[i - 1]
            } else {
                ch[i]
            }) by {}
            assert forall|x: usize| nch.contains(x) <==> ch.contains(x) by {
                if ch.contains(x) {
                    let j = choose|j: int| 0 <= j < ch.len() && ch[j] == x;
                    let i = if j == p { 0 } else if j < p { j + 1 } else { j };
                    assert(nch[i] == x);
                }
            }
            lemma_reorder(self.map@, self.free@, es0, self.entries@, ch, nch);
            assert(nch[0] == index);
            assert(view_of(es0, nch) =~= promoted(view_of(es0, ch), p));
        }
    }
}

impl<K: Eq + Hash + Clone, V> LRUCache<K, V> {
    /// Following `next` from the head visits every occupied slot once, in
    /// recency order, never comes back to a slot, and stops at the tail;
    /// `prev` walks the same chain backwards.
    pub closed spec fn chain_linked(&self) -> bool {
        links_ok(self.entries@, self.chain@, self.head, self.tail)
    }

    /// The number of slots in the arena, vacant ones included.
    pub closed spec fn arena_len(&self) -> nat {
        self.entries@.len()
    }

    /// The entries walked along the chain are one for each slot of it.
    pub closed spec fn chain_len(&self) -> nat {
        self.chain@.len()
    }
}

/// A well-formed cache never holds more entries than its capacity, so no
/// more than that many keys can be found by `get`; as freed slots are reused,
/// the arena never outgrows the capacity either.
pub proof fn lemma_within_capacity<K: Eq + Hash + Clone, V>(c: &LRUCache<K, V>)
    requires
        c.wf(),
    ensures
        c@.len() <= c.capacity(),
        key_set(c@).finite(),
        key_set(c@).len() <= c.capacity(),
        c.arena_len() <= c.capacity(),
{
    lemma_distinct(c);
    let ks = c@.map_values(|e: (K, V)| e.0);
    assert forall|k: K| key_set(c@).contains(k) <==> ks.to_set().contains(k) by {
        if has_key(c@, k) {
            let i = choose|i: int| 0 <= i < c@.len() && c@[i].0 == k;
            assert(ks[i] == k);
        }
        if ks.contains(k) {
            let i = choose|i: int| 0 <= i < ks.len() && ks[i] == k;
            assert(c@[i].0 == k);
        }
    }
    assert(key_set(c@) =~= ks.to_set());
    ks.lemma_cardinality_of_set();
}

/// In a well-formed cache the keys of the index are exactly the keys met
/// when walking the chain from head to tail, each met once, and the chain is
/// linked both ways without cycles and ends at the recorded tail.
pub proof fn lemma_chain_matches_index<K: Eq + Hash + Clone, V>(c: &LRUCache<K, V>)
    requires
        c.wf(),
    ensures
        c.index_keys() == key_set(c@),
        distinct_keys(c@),
        c.chain_linked(),
        c.chain_len() == c@.len(),
{
    lemma_distinct(c);
    lemma_index_keys(c);
    assert(c.index_keys() =~= key_set(c@));
}

} // verus!
