use lfu::LFUCache;

#[test]
fn it_works() {
    let mut lfu = LFUCache::with_capacity(20);
    lfu.set(10, 10);
    lfu.set(20, 30);
    assert_eq!(lfu.get(&10).unwrap(), &10);
    assert_eq!(lfu.get(&30), None);
}

#[test]
fn test_lru_eviction() {
    let mut lfu = LFUCache::with_capacity(2);
    lfu.set(1, 1);
    lfu.set(2, 2);
    lfu.set(3, 3);
    assert_eq!(lfu.get(&1), None)
}

#[test]
fn test_key_frequency_update() {
    let mut lfu = LFUCache::with_capacity(2);
    lfu.set(1, 1);
    lfu.set(2, 2);
    lfu.set(1, 3);
    lfu.set(10, 10);
    assert_eq!(lfu.get(&2), None);
    assert_eq!(*lfu.index(10), 10);
}

#[test]
fn test_lfu_indexing() {
    let mut lfu: LFUCache<i32> = LFUCache::with_capacity(2);
    lfu.set(1, 1);
    assert_eq!(*lfu.index(1), 1);
}

#[test]
fn test_lfu_deletion() {
    let mut lfu = LFUCache::with_capacity(2);
    lfu.set(1, 1);
    lfu.set(2, 2);
    lfu.remove(1);
    assert_eq!(lfu.get(&1), None);
    lfu.set(3, 3);
    lfu.set(4, 4);
    assert_eq!(lfu.get(&2), None);
    assert_eq!(lfu.get(&3), Some(&3));
}

#[test]
fn test_duplicates() {
    let mut lfu = LFUCache::with_capacity(2);
    lfu.set(1, 1);
    lfu.set(1, 2);
    lfu.set(1, 3);
    {
        lfu.set(5, 20);
    }

    assert_eq!(*lfu.index(1), 3);
}

#[test]
fn test_lfu_consumption() {
    let mut lfu = LFUCache::with_capacity(1);
    lfu.set(1, 1);
    let mut entries = lfu.into_iter();
    let mut seen = 0;
    while let Some((_, v)) = entries.next() {
        assert_eq!(v, 1);
        seen += 1;
    }
    assert_eq!(seen, 1);
}

#[test]
fn test_lfu_iter() {
    let mut lfu = LFUCache::with_capacity(2);
    lfu.set(1, 1);
    lfu.set(2, 2);
    let mut it = lfu.iter();
    while let Some((key, v)) = it.next() {
        match key {
            1 => {
                assert_eq!(v, &1);
            }
            2 => {
                assert_eq!(v, &2);
            }
            _ => {}
        }
    }
}

#[test]
fn clone_test() {
    let mut lfu = LFUCache::with_capacity(2);
    lfu.set(1, 1);
    lfu.set(2, 2);
    lfu.set(3, 3);

    let lfu2 = lfu.clone();
    let mut it = lfu.iter();
    while let Some((key, v)) = it.next() {
        assert_eq!(lfu.frequency(&key), lfu2.frequency(&key));
        assert_eq!(v, lfu2.index(key));
    }
}

#[test]
fn peek_test() {
    let mut lfu = LFUCache::with_capacity(2);
    lfu.set(1, 1);
    lfu.set(2, 2);

    let _ = lfu.get(&1);
    let peek = lfu.peek_lfu_key();
    assert_eq!(peek, Some(2));

    lfu.set(3, 3);
    assert_eq!(lfu.get(&2), None);
}
