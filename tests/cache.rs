use lru_arena::cache::{LRUCache, LruError};
use lru_arena::load::write_cycle;
use lru_arena::read_state::ReadState;

fn cache(capacity: usize) -> LRUCache<u64, u64> {
    LRUCache::new(capacity).unwrap()
}

#[test]
fn zero_capacity_is_refused() {
    let r = LRUCache::<u64, u64>::new(0);
    assert!(matches!(r, Err(LruError::ZeroCapacity)));
}

#[test]
fn new_cache_is_empty() {
    let mut c = cache(3);
    assert_eq!(c.len(), 0);
    assert_eq!(c.get(&7), None);
}

#[test]
fn capacity_two_scenario() {
    let mut c = cache(2);
    c.put(1, 1);
    c.put(2, 2);
    assert_eq!(c.get(&1), Some(&1));
    c.put(3, 3);
    assert_eq!(c.get(&2), None);
    assert_eq!(c.get(&1), Some(&1));
    assert_eq!(c.get(&3), Some(&3));
    assert_eq!(c.len(), 2);
}

#[test]
fn capacity_one_scenario() {
    let mut c = cache(1);
    c.put(1, 1);
    c.put(2, 2);
    assert_eq!(c.get(&1), None);
    assert_eq!(c.get(&2), Some(&2));
    assert_eq!(c.len(), 1);
}

#[test]
fn distinct_puts_stay_within_capacity() {
    let mut c = cache(5);
    for k in 0..100u64 {
        c.put(k, k * 10);
        assert!(c.len() <= 5);
    }
    let found = (0..100u64).filter(|k| c.get(k).is_some()).count();
    assert_eq!(found, 5);
    for k in 95..100u64 {
        assert_eq!(c.get(&k), Some(&(k * 10)));
    }
}

#[test]
fn get_protects_first_key_from_eviction() {
    let mut c = cache(3);
    c.put(10, 100);
    c.put(20, 200);
    c.put(30, 300);
    assert_eq!(c.get(&10), Some(&100));
    c.put(40, 400);
    assert_eq!(c.get(&20), None);
    assert_eq!(c.get(&10), Some(&100));
    assert_eq!(c.get(&30), Some(&300));
    assert_eq!(c.get(&40), Some(&400));
}

#[test]
fn put_of_present_key_updates_value() {
    let mut c = cache(2);
    c.put(1, 1);
    c.put(2, 2);
    c.put(1, 11);
    assert_eq!(c.len(), 2);
    assert_eq!(c.get(&1), Some(&11));
    assert_eq!(c.get(&2), Some(&2));
}

#[test]
fn update_promotes_the_key() {
    let mut c = cache(2);
    c.put(1, 1);
    c.put(2, 2);
    c.put(1, 5);
    c.put(3, 3);
    assert_eq!(c.get(&2), None);
    assert_eq!(c.get(&1), Some(&5));
    assert_eq!(c.get(&3), Some(&3));
}

#[test]
fn repeated_get_of_head_keeps_order() {
    let mut c = cache(3);
    c.put(1, 1);
    c.put(2, 2);
    c.put(3, 3);
    for _ in 0..4 {
        assert_eq!(c.get(&3), Some(&3));
    }
    c.put(4, 4);
    assert_eq!(c.get(&1), None);
    c.put(5, 5);
    assert_eq!(c.get(&2), None);
    assert_eq!(c.get(&3), Some(&3));
}

#[test]
fn get_of_absent_key_changes_nothing() {
    let mut c = cache(2);
    c.put(1, 1);
    c.put(2, 2);
    assert_eq!(c.get(&9), None);
    c.put(3, 3);
    assert_eq!(c.get(&1), None);
    assert_eq!(c.get(&2), Some(&2));
}

#[test]
fn middle_and_tail_promotion() {
    let mut c = cache(4);
    for k in 1..=4u64 {
        c.put(k, k);
    }
    assert_eq!(c.get(&2), Some(&2));
    assert_eq!(c.get(&1), Some(&1));
    c.put(5, 5);
    c.put(6, 6);
    assert_eq!(c.get(&3), None);
    assert_eq!(c.get(&4), None);
    assert_eq!(c.get(&1), Some(&1));
    assert_eq!(c.get(&2), Some(&2));
}

#[test]
fn slots_are_reused_under_long_traffic() {
    let mut c = cache(3);
    for k in 0..1000u64 {
        c.put(k % 7, k);
        if k % 3 == 0 {
            let _ = c.get(&(k % 5));
        }
        assert!(c.len() <= 3);
    }
    assert_eq!(c.get(&(999 % 7)), Some(&999));
}

#[test]
fn string_keys() {
    let mut c: LRUCache<String, u32> = LRUCache::new(2).unwrap();
    c.put("a".to_string(), 1);
    c.put("b".to_string(), 2);
    assert_eq!(c.get(&"a".to_string()), Some(&1));
    c.put("c".to_string(), 3);
    assert_eq!(c.get(&"b".to_string()), None);
    assert_eq!(c.get(&"c".to_string()), Some(&3));
}

#[test]
fn read_state_key_is_two_hyphenated_uuids() {
    let s = ReadState {
        user_id: 0x67e5504410b1426f9247bb680e5fe0c8,
        channel_id: 0x0123456789abcdef0011223344556677,
    };
    assert_eq!(
        s.key(),
        "67e55044-10b1-426f-9247-bb680e5fe0c8:01234567-89ab-cdef-0011-223344556677"
    );
}

#[test]
fn random_read_states_are_version_four() {
    let a = ReadState::new();
    let b = ReadState::new();
    for id in [a.user_id, a.channel_id, b.user_id, b.channel_id] {
        assert_eq!(id & 0xf000c000000000000000, 0x40008000000000000000);
    }
    assert_ne!(a.user_id, b.user_id);
    assert_eq!(a.key().len(), 73);
}

#[test]
fn read_states_as_values() {
    let mut c: LRUCache<String, ReadState> = LRUCache::new(1).unwrap();
    let s = ReadState { user_id: 1, channel_id: 2 };
    let t = ReadState { user_id: 3, channel_id: 4 };
    c.put(s.key(), s);
    assert_eq!(c.get(&s.key()), Some(&s));
    c.put(t.key(), t);
    assert_eq!(c.get(&s.key()), None);
    assert_eq!(c.get(&t.key()), Some(&t));
}

#[test]
fn write_cycle_respects_capacity() {
    let mut c: LRUCache<i64, i64> = LRUCache::new(8).unwrap();
    write_cycle(&mut c, 3);
    assert!(c.len() <= 3);
    write_cycle(&mut c, 50);
    assert!(c.len() <= 8);
    assert!(c.len() >= 7);
}

#[test]
fn write_cycle_of_zero_changes_nothing() {
    let mut c: LRUCache<i64, i64> = LRUCache::new(4).unwrap();
    c.put(1, 2);
    write_cycle(&mut c, 0);
    assert_eq!(c.len(), 1);
    assert_eq!(c.get(&1), Some(&2));
}
