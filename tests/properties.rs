use lfu::{LFUCache, ValueCounter};

#[test]
fn len_never_exceeds_capacity() {
    let mut lfu = LFUCache::with_capacity(3);
    for k in 0..50 {
        lfu.set(k % 7, k);
        assert!(lfu.len() <= 3);
        if k % 3 == 0 {
            let _ = lfu.get(&(k % 5));
        }
    }
    assert_eq!(lfu.len(), 3);
}

#[test]
fn access_raises_frequency_by_one() {
    let mut lfu = LFUCache::with_capacity(2);
    lfu.set(7, 70);
    assert_eq!(lfu.frequency(&7), Some(1));
    let _ = lfu.get(&7);
    assert_eq!(lfu.frequency(&7), Some(2));
    if let Some(v) = lfu.get_mut(&7) {
        *v = 71;
    }
    assert_eq!(lfu.frequency(&7), Some(3));
    lfu.set(7, 72);
    assert_eq!(lfu.frequency(&7), Some(4));
    assert_eq!(lfu.get(&7), Some(&72));
    assert_eq!(lfu.frequency(&7), Some(5));
}

#[test]
fn get_mut_changes_the_value() {
    let mut lfu = LFUCache::with_capacity(2);
    lfu.set(1, 10);
    *lfu.get_mut(&1).unwrap() += 5;
    assert_eq!(lfu.get(&1), Some(&15));
    assert!(lfu.get_mut(&2).is_none());
}

#[test]
fn tie_evicts_oldest_at_lowest_count() {
    let mut lfu = LFUCache::with_capacity(3);
    lfu.set(1, 1);
    lfu.set(2, 2);
    lfu.set(3, 3);
    let _ = lfu.get(&1);
    assert_eq!(lfu.peek_lfu_key(), Some(2));
    lfu.set(4, 4);
    assert!(!lfu.contains(&2));
    assert!(lfu.contains(&1));
    assert!(lfu.contains(&3));
    assert!(lfu.contains(&4));
}

#[test]
fn tie_at_higher_count_follows_arrival() {
    let mut lfu = LFUCache::with_capacity(2);
    lfu.set(1, 1);
    lfu.set(2, 2);
    let _ = lfu.get(&2);
    let _ = lfu.get(&1);
    assert_eq!(lfu.peek_lfu_key(), Some(2));
    lfu.set(3, 3);
    assert!(!lfu.contains(&2));
    assert_eq!(lfu.get(&1), Some(&1));
    assert_eq!(lfu.get(&3), Some(&3));
}

#[test]
fn set_then_get_round_trip() {
    let mut lfu = LFUCache::with_capacity(1);
    lfu.set(5, 50);
    assert_eq!(lfu.get(&5), Some(&50));
    lfu.set(6, 60);
    assert_eq!(lfu.get(&6), Some(&60));
    assert_eq!(lfu.get(&5), None);
}

#[test]
fn absent_key_changes_nothing() {
    let mut lfu = LFUCache::with_capacity(2);
    assert_eq!(lfu.peek_lfu_key(), None);
    lfu.set(1, 1);
    assert_eq!(lfu.get(&9), None);
    assert_eq!(lfu.remove(9), None);
    assert_eq!(lfu.len(), 1);
    assert_eq!(lfu.frequency(&1), Some(1));
    assert_eq!(lfu.frequency(&9), None);
    assert_eq!(lfu.peek_lfu_key(), Some(1));
}

#[test]
fn remove_returns_the_value() {
    let mut lfu = LFUCache::with_capacity(2);
    assert!(lfu.is_empty());
    lfu.set(1, 11);
    lfu.set(2, 22);
    assert_eq!(lfu.remove(1), Some(11));
    assert_eq!(lfu.len(), 1);
    assert!(!lfu.contains(&1));
    assert_eq!(lfu.remove(1), None);
    assert_eq!(lfu.remove(2), Some(22));
    assert!(lfu.is_empty());
}

#[test]
fn scenario_update_then_evict() {
    let mut lfu = LFUCache::with_capacity(2);
    lfu.set(2, 2);
    lfu.set(3, 3);
    lfu.set(3, 30);
    lfu.set(4, 4);
    assert_eq!(lfu.get(&2), None);
    assert_eq!(lfu.get(&3), Some(&30));
}

#[test]
fn iteration_keeps_counts() {
    let mut lfu = LFUCache::with_capacity(3);
    lfu.set(1, 10);
    lfu.set(2, 20);
    lfu.set(3, 30);
    let mut sum = 0;
    let mut n = 0;
    let mut it = lfu.iter();
    while let Some((k, v)) = it.next() {
        assert_eq!(*v, k * 10);
        sum += *v;
        n += 1;
    }
    assert_eq!(n, 3);
    assert_eq!(sum, 60);
    assert_eq!(lfu.frequency(&1), Some(1));
    assert_eq!(lfu.frequency(&2), Some(1));
    assert_eq!(lfu.frequency(&3), Some(1));
}

#[test]
fn consuming_hands_out_every_entry() {
    let mut lfu = LFUCache::with_capacity(4);
    for k in 1..5 {
        lfu.set(k, k * 100);
    }
    let mut entries = lfu.into_iter();
    let mut keys = Vec::new();
    while let Some((k, v)) = entries.next() {
        assert_eq!(v, k * 100);
        keys.push(k);
    }
    keys.sort();
    assert_eq!(keys, vec![1, 2, 3, 4]);
    assert!(entries.next().is_none());
}

#[test]
fn counter_increments() {
    let mut vc = ValueCounter { value: 'a', count: 1 };
    vc.inc();
    assert_eq!(vc.count, 2);
    assert_eq!(vc.value, 'a');
}

#[test]
fn negative_keys_are_ordinary() {
    let mut lfu = LFUCache::with_capacity(2);
    lfu.set(-1, 1);
    lfu.set(i32::MIN, 2);
    assert_eq!(lfu.get(&i32::MIN), Some(&2));
    lfu.set(i32::MAX, 3);
    assert!(!lfu.contains(&-1));
    assert_eq!(*lfu.index(i32::MAX), 3);
}
