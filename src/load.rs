//! Synthetic write traffic: a cycle of `put`s with random keys and values.
use vstd::prelude::*;
use crate::cache::LRUCache;
use crate::laws::put_all;

verus! {

/// Relies on `rand::random::<i64>`, drawn from the thread-local generator:
/// any `i64`.
#[verifier::external_body]
fn random_i64() -> (r: i64) {
    rand::random::<i64>()
}

/// Puts `count` random keys with random values into `cache`. Whatever was
/// drawn, the cache ends as after `put`s of some `count` pairs, in order.
pub fn write_cycle(cache: &mut LRUCache<i64, i64>, count: usize)
    requires
        old(cache).wf(),
    ensures
        final(cache).wf(),
        final(cache).capacity() == old(cache).capacity(),
        exists|ops: Seq<(i64, i64)>|
            ops.len() == count && final(cache)@ == put_all(old(cache)@, old(cache).capacity(), ops),
{
    let ghost start = cache@;
    let ghost cap = cache.capacity();
    let ghost mut ops: Seq<(i64, i64)> = Seq::empty();
    let mut i: usize = 0;
    while i < count
        invariant
            cache.wf(),
            cache.capacity() == cap,
            i <= count,
            ops.len() == i,
            cache@ == put_all(start, cap, ops),
        decreases count - i,
    {
        let key = random_i64();
        let value = random_i64();
        cache.put(key, value);
        proof {
            let next = ops.push((key, value));
            assert(next.drop_last() =~= ops);
            ops = next;
        }
        i += 1;
    }
}

} // verus!
