//! The cache: an entry table, one bucket of keys per access count, and the
//! lowest count whose bucket is in use.
use crate::bucket::{
    bucket_front, bucket_is_empty, bucket_keys, bucket_new, bucket_pop_front, bucket_push,
    bucket_remove,
};
use linked_hash_set::LinkedHashSet;
use std::collections::HashMap;
use vstd::prelude::*;
use vstd::std_specs::hash::spec_keys_iter;
use vstd::std_specs::iter::IteratorSpec;

verus! {

broadcast use vstd::std_specs::hash::group_hash_axioms;

/// A stored value together with the number of times its key was accessed.
#[derive(Clone, Debug)]
pub struct ValueCounter<V> {
    pub value: V,
    pub count: usize,
}

impl<V> ValueCounter<V> {
    pub fn inc(&mut self)
        requires
            old(self).count < usize::MAX,
        ensures
            final(self).count == old(self).count + 1,
            final(self).value == old(self).value,
    {
        self.count += 1;
    }
}

/// A bounded cache that evicts the least frequently used key, and among keys
/// of equal frequency the one that reached that frequency first.
#[derive(Clone, Debug)]
pub struct LFUCache<V> {
    values: HashMap<i32, ValueCounter<V>>,
    frequency_bin: HashMap<usize, LinkedHashSet<i32>>,
    capacity: usize,
    min_frequency: usize,
}

impl<V> LFUCache<V> {
    /// The stored value of each key.
    pub closed spec fn values(self) -> Map<i32, V> {
        self.values@.map_values(|vc: ValueCounter<V>| vc.value)
    }

    /// The access count of each key.
    pub closed spec fn counts(self) -> Map<i32, nat> {
        self.values@.map_values(|vc: ValueCounter<V>| vc.count as nat)
    }

    /// The keys whose access count is `f`, in the order they reached it.
    pub closed spec fn bin(self, f: nat) -> Seq<i32> {
        if f <= usize::MAX && self.frequency_bin@.contains_key(f as usize) {
            bucket_keys(self.frequency_bin@[f as usize])
        } else {
            Seq::empty()
        }
    }

    pub closed spec fn capacity(self) -> nat {
        self.capacity as nat
    }

    /// The count whose bucket eviction and peeking look at.
    pub closed spec fn min_frequency(self) -> nat {
        self.min_frequency as nat
    }

    /// Every key sits in exactly the bucket of its count, the buckets hold no
    /// stray keys, no count lies below the tracked minimum, and a full cache
    /// has a key in the bucket of the tracked minimum.
    pub closed spec fn wf(self) -> bool {
        &&& self.capacity > 0
        &&& self.values@.len() <= self.capacity
        &&& forall|k: i32| #[trigger]
            self.values@.contains_key(k) ==> {
                &&& self.values@[k].count >= 1
                &&& self.values@[k].count >= self.min_frequency
                &&& self.bin(self.values@[k].count as nat).contains(k)
            }
        &&& forall|f: nat, i: int|
            0 <= i < self.bin(f).len() ==> {
                &&& self.values@.contains_key(#[trigger] self.bin(f)[i])
                &&& self.values@[self.bin(f)[i]].count == f
            }
        &&& forall|f: nat| #[trigger] self.bin(f).no_duplicates()
        &&& self.values@.len() == self.capacity ==> self.bin(self.min_frequency as nat).len() > 0
    }

    /// An empty cache that holds at most `capacity` entries.
    pub fn with_capacity(capacity: usize) -> (r: LFUCache<V>)
        requires
            capacity > 0,
        ensures
            r.wf(),
            r.values() == Map::<i32, V>::empty(),
            r.capacity() == capacity,
            r.min_frequency() == 0,
            forall|f: nat| r.bin(f) == Seq::<i32>::empty(),
    {
        let r = LFUCache {
            values: HashMap::new(),
            frequency_bin: HashMap::new(),
            capacity,
            min_frequency: 0,
        };
        assert(r.values() == Map::<i32, V>::empty());
        r
    }

    pub fn contains(&self, key: &i32) -> (r: bool)
        ensures
            r == self.values().contains_key(*key),
    {
        self.values.contains_key(key)
    }

    pub fn len(&self) -> (r: usize)
        ensures
            r == self.values().len(),
    {
        proof {
            assert(self.values().dom() == self.values@.dom());
        }
        self.values.len()
    }

    pub fn is_empty(&self) -> (r: bool)
        ensures
            r == (self.values().len() == 0),
    {
        self.len() == 0
    }

    /// The bucket contents after `key`, at count `c`, moved up to `c + 1`.
    pub open spec fn bins_after_bump(self, key: i32, c: nat, f: nat) -> Seq<i32> {
        if f == c {
            self.bin(c).remove(self.bin(c).index_of(key))
        } else if f == c + 1 {
            self.bin(c + 1).push(key)
        } else {
            self.bin(f)
        }
    }

    /// The tracked minimum after `key`, at count `c`, moved up to `c + 1`.
    pub open spec fn min_after_bump(self, key: i32, c: nat) -> nat {
        if c == self.min_frequency() && self.bins_after_bump(key, c, c).len() == 0 {
            self.min_frequency() + 1
        } else {
            self.min_frequency()
        }
    }

    /// Moves a present key from the bucket of its count to the end of the
    /// next bucket up.
    fn update_frequency_bin(&mut self, key: i32)
        requires
            old(self).wf(),
            old(self).values().contains_key(key) ==> old(self).counts()[key] < usize::MAX,
        ensures
            final(self).wf(),
            final(self).capacity() == old(self).capacity(),
            final(self).values() == old(self).values(),
            !old(self).values().contains_key(key) ==> *final(self) == *old(self),
            old(self).values().contains_key(key) ==> {
                let c = old(self).counts()[key];
                &&& final(self).counts() == old(self).counts().insert(key, c + 1)
                &&& forall|f: nat| #[trigger]
                    final(self).bin(f) == old(self).bins_after_bump(key, c, f)
                &&& final(self).min_frequency() == old(self).min_after_bump(key, c)
            },
    {
        let count = match self.values.get(&key) {
            Some(vc) => vc.count,
            None => {
                return ;
            },
        };
        let ghost pre = *self;
        let ghost c = count as nat;
        proof {
            assert(pre.values@.contains_key(key));
            assert(pre.bin(c).contains(key));
        }
        let mut bin = self.frequency_bin.remove(&count).unwrap();
        bucket_remove(&mut bin, key);
        let now_empty = bucket_is_empty(&bin);
        self.frequency_bin.insert(count, bin);
        let mut vc = self.values.remove(&key).unwrap();
        vc.inc();
        self.values.insert(key, vc);
        if count == self.min_frequency && now_empty {
            self.min_frequency = self.min_frequency + 1;
        }
        let mut next = match self.frequency_bin.remove(&(count + 1)) {
            Some(b) => b,
            None => bucket_new(),
        };
        proof {
            assert(bucket_keys(next) == pre.bin(c + 1));
            if pre.bin(c + 1).contains(key) {
                let i = choose|i: int| 0 <= i < pre.bin(c + 1).len() && #[trigger] pre.bin(c + 1)[i] == key;
                assert(pre.values@[pre.bin((c + 1) as nat)[i]].count == c + 1);
            }
        }
        bucket_push(&mut next, key);
        self.frequency_bin.insert(count + 1, next);
        proof {
            lemma_remove_no_dup(pre.bin(c), key);
            lemma_push_no_dup(pre.bin(c + 1), key);
            assert forall|f: nat| #[trigger] self.bin(f) == pre.bins_after_bump(key, c, f) by {}
            assert(self.values() == pre.values());
            assert(self.counts() == pre.counts().insert(key, c + 1));
            assert forall|k: i32| #[trigger] self.values@.contains_key(k) implies {
                &&& self.values@[k].count >= 1
                &&& self.values@[k].count >= self.min_frequency
                &&& self.bin(self.values@[k].count as nat).contains(k)
            } by {
                if k != key {
                    let ck = pre.values@[k].count as nat;
                    assert(pre.values@.contains_key(k));
                    assert(pre.bin(ck).contains(k));
                    assert(self.values@[k] == pre.values@[k]);
                    if ck == c {
                        lemma_remove_keeps_others(pre.bin(c), key, k);
                        assert(self.bin(c).contains(k));
                        assert(!now_empty);
                    } else if ck == c + 1 {
                        let j = choose|j: int| 0 <= j < pre.bin(ck).len() && #[trigger] pre.bin(ck)[j] == k;
                        assert(self.bin(ck)[j] == k);
                    } else {
                        assert(self.bin(ck) == pre.bin(ck));
                    }
                } else {
                    assert(self.bin(c + 1)[pre.bin(c + 1).len() as int] == key);
                }
            }
            assert forall|f: nat, i: int| 0 <= i < self.bin(f).len() implies {
                &&& self.values@.contains_key(#[trigger] self.bin(f)[i])
                &&& self.values@[self.bin(f)[i]].count == f
            } by {
                if f == c {
                    lemma_remove_from_old(pre.bin(c), key, i);
                    let j = if i < pre.bin(c).index_of(key) { i } else { i + 1 };
                    assert(pre.bin(c)[j] == self.bin(f)[i]);
                } else if f == c + 1 {
                    if i < pre.bin(c + 1).len() {
                        assert(pre.bin(f)[i] == self.bin(f)[i]);
                    }
                } else {
                    assert(pre.bin(f)[i] == self.bin(f)[i]);
                }
            }
            if self.values@.len() == self.capacity {
                let m = self.min_frequency as nat;
                if m == c + 1 {
                    assert(self.bin(m)[pre.bin(c + 1).len() as int] == key);
                } else {
                    assert(pre.bin(m).len() > 0);
                    if m == c {
                        assert(!now_empty);
                    }
                }
            }
        }
    }

    /// Takes a key out with its value. The tracked minimum is left as it is:
    /// a cache with room to spare never evicts, and the next new key resets
    /// the minimum to one.
    pub fn remove(&mut self, key: i32) -> (r: Option<V>)
        requires
            old(self).wf(),
        ensures
            final(self).wf(),
            final(self).capacity() == old(self).capacity(),
            final(self).min_frequency() == old(self).min_frequency(),
            !old(self).values().contains_key(key) ==> r is None && *final(self) == *old(self),
            old(self).values().contains_key(key) ==> {
                let c = old(self).counts()[key];
                &&& r == Some(old(self).values()[key])
                &&& final(self).values() == old(self).values().remove(key)
                &&& final(self).counts() == old(self).counts().remove(key)
                &&& final(self).bin(c) == old(self).bin(c).remove(old(self).bin(c).index_of(key))
                &&& forall|f: nat| f != c ==> #[trigger] final(self).bin(f) == old(self).bin(f)
            },
    {
        let count = match self.values.get(&key) {
            Some(vc) => vc.count,
            None => {
                return None;
            },
        };
        let ghost pre = *self;
        let ghost c = count as nat;
        proof {
            assert(pre.bin(c).contains(key));
            lemma_remove_no_dup(pre.bin(c), key);
        }
        let mut bin = self.frequency_bin.remove(&count).unwrap();
        bucket_remove(&mut bin, key);
        self.frequency_bin.insert(count, bin);
        let r = match self.values.remove(&key) {
            Some(vc) => Some(vc.value),
            None => None,
        };
        proof {
            assert(self.values() == pre.values().remove(key));
            assert(self.counts() == pre.counts().remove(key));
            assert forall|f: nat| f != c implies #[trigger] self.bin(f) == pre.bin(f) by {}
            assert forall|k: i32| #[trigger] self.values@.contains_key(k) implies {
                &&& self.values@[k].count >= 1
                &&& self.values@[k].count >= self.min_frequency
                &&& self.bin(self.values@[k].count as nat).contains(k)
            } by {
                let ck = pre.values@[k].count as nat;
                assert(pre.values@.contains_key(k));
                assert(pre.bin(ck).contains(k));
                if ck == c {
                    lemma_remove_keeps_others(pre.bin(c), key, k);
                }
            }
            assert forall|f: nat, i: int| 0 <= i < self.bin(f).len() implies {
                &&& self.values@.contains_key(#[trigger] self.bin(f)[i])
                &&& self.values@[self.bin(f)[i]].count == f
            } by {
                if f == c {
                    lemma_remove_from_old(pre.bin(c), key, i);
                    let j = if i < pre.bin(c).index_of(key) { i } else { i + 1 };
                    assert(pre.bin(c)[j] == self.bin(f)[i]);
                } else {
                    assert(pre.bin(f)[i] == self.bin(f)[i]);
                }
            }
        }
        r
    }

    /// The key that eviction takes: the oldest one at the tracked minimum.
    pub open spec fn lfu_key(self) -> i32 {
        self.bin(self.min_frequency())[0]
    }

    /// The bucket contents after the eviction of `lfu_key`.
    pub open spec fn bins_after_evict(self, f: nat) -> Seq<i32> {
        if f == self.min_frequency() {
            self.bin(f).drop_first()
        } else {
            self.bin(f)
        }
    }

    /// Whether setting `key` has to make room first.
    pub open spec fn evicts_for(self, key: i32) -> bool {
        !self.values().contains_key(key) && self.values().len() >= self.capacity()
    }

    /// The stored values after `set(key, value)`.
    pub open spec fn values_after_set(self, key: i32, value: V) -> Map<i32, V> {
        if self.evicts_for(key) {
            self.values().remove(self.lfu_key()).insert(key, value)
        } else {
            self.values().insert(key, value)
        }
    }

    /// Drops the oldest key at the tracked minimum count from a full cache.
    fn evict(&mut self)
        requires
            old(self).wf(),
            old(self).bin(old(self).min_frequency()).len() > 0,
        ensures
            final(self).wf(),
            final(self).capacity() == old(self).capacity(),
            final(self).min_frequency() == old(self).min_frequency(),
            old(self).bin(old(self).min_frequency()).len() > 0,
            final(self).values() == old(self).values().remove(old(self).lfu_key()),
            final(self).counts() == old(self).counts().remove(old(self).lfu_key()),
            final(self).values@.len() == old(self).values@.len() - 1,
            forall|f: nat| #[trigger] final(self).bin(f) == old(self).bins_after_evict(f),
    {
        let ghost pre = *self;
        let ghost m = self.min_frequency as nat;
        let mut least_frequently_used_keys = self.frequency_bin.remove(&self.min_frequency).unwrap();
        let least_recently_used = bucket_pop_front(&mut least_frequently_used_keys).unwrap();
        self.frequency_bin.insert(self.min_frequency, least_frequently_used_keys);
        proof {
            assert(pre.bin(m)[0] == least_recently_used);
            assert(pre.values@.contains_key(least_recently_used));
        }
        self.values.remove(&least_recently_used);
        proof {
            let v = least_recently_used;
            assert(self.values() == pre.values().remove(v));
            assert(self.counts() == pre.counts().remove(v));
            assert forall|f: nat| #[trigger] self.bin(f) == pre.bins_after_evict(f) by {}
            assert forall|k: i32| #[trigger] self.values@.contains_key(k) implies {
                &&& self.values@[k].count >= 1
                &&& self.values@[k].count >= self.min_frequency
                &&& self.bin(self.values@[k].count as nat).contains(k)
            } by {
                let ck = pre.values@[k].count as nat;
                assert(pre.values@.contains_key(k));
                assert(pre.bin(ck).contains(k));
                if ck == m {
                    let j = choose|j: int| 0 <= j < pre.bin(m).len() && #[trigger] pre.bin(m)[j] == k;
                    assert(j != 0);
                    assert(self.bin(m)[j - 1] == k);
                }
            }
            assert forall|f: nat, i: int| 0 <= i < self.bin(f).len() implies {
                &&& self.values@.contains_key(#[trigger] self.bin(f)[i])
                &&& self.values@[self.bin(f)[i]].count == f
            } by {
                if f == m {
                    assert(pre.bin(m).no_duplicates());
                    assert(self.bin(f)[i] == pre.bin(m)[i + 1]);
                    assert(pre.bin(m)[i + 1] != pre.bin(m)[0]);
                } else {
                    assert(self.bin(f)[i] == pre.bin(f)[i]);
                    if pre.bin(f)[i] == v {
                        assert(pre.values@[v].count == m);
                    }
                }
            }
            assert forall|f: nat| #[trigger] self.bin(f).no_duplicates() by {
                if f == m {
                    assert forall|a: int, b: int| 0 <= a < self.bin(f).len() && 0 <= b < self.bin(f).len() && a != b
                        implies self.bin(f)[a] != self.bin(f)[b] by {
                        assert(pre.bin(m).no_duplicates());
                        assert(self.bin(f)[a] == pre.bin(m)[a + 1]);
                        assert(self.bin(f)[b] == pre.bin(m)[b + 1]);
                    }
                }
            }
        }
    }

    /// Stores a value. A present key gets the new value and its count goes up
    /// by one; a new key enters with count one, after a full cache has
    /// evicted `lfu_key`.
    pub fn set(&mut self, key: i32, value: V)
        requires
            old(self).wf(),
            old(self).values().contains_key(key) ==> old(self).counts()[key] < usize::MAX,
        ensures
            final(self).wf(),
            final(self).capacity() == old(self).capacity(),
            final(self).values().len() <= final(self).capacity(),
            final(self).values() == old(self).values_after_set(key, value),
            old(self).values().contains_key(key) ==> {
                let c = old(self).counts()[key];
                &&& final(self).counts() == old(self).counts().insert(key, c + 1)
                &&& forall|f: nat| #[trigger]
                    final(self).bin(f) == old(self).bins_after_bump(key, c, f)
                &&& final(self).min_frequency() == old(self).min_after_bump(key, c)
            },
            !old(self).values().contains_key(key) && !old(self).evicts_for(key) ==> {
                &&& final(self).counts() == old(self).counts().insert(key, 1)
                &&& final(self).bin(1) == old(self).bin(1).push(key)
                &&& forall|f: nat| f != 1 ==> #[trigger] final(self).bin(f) == old(self).bin(f)
                &&& final(self).min_frequency() == 1
            },
            old(self).evicts_for(key) ==> {
                let v = old(self).lfu_key();
                &&& old(self).bin(old(self).min_frequency()).len() > 0
                &&& final(self).counts() == old(self).counts().remove(v).insert(key, 1)
                &&& final(self).bin(1) == old(self).bins_after_evict(1).push(key)
                &&& forall|f: nat|
                    f != 1 ==> #[trigger] final(self).bin(f) == old(self).bins_after_evict(f)
                &&& final(self).min_frequency() == 1
            },
    {
        let ghost pre = *self;
        proof {
            pre.lemma_model_dom();
        }
        if self.values.contains_key(&key) {
            let mut vc = self.values.remove(&key).unwrap();
            vc.value = value;
            self.values.insert(key, vc);
            proof {
                assert(self.values@.dom() == pre.values@.dom());
                assert(self.counts() == pre.counts());
                assert(self.values() == pre.values().insert(key, value));
                assert forall|f: nat, i: int| 0 <= i < self.bin(f).len() implies {
                    &&& self.values@.contains_key(#[trigger] self.bin(f)[i])
                    &&& self.values@[self.bin(f)[i]].count == f
                } by {
                    assert(pre.values@.contains_key(pre.bin(f)[i]));
                }
                assert forall|k: i32| #[trigger] self.values@.contains_key(k) implies {
                    &&& self.values@[k].count >= 1
                    &&& self.values@[k].count >= self.min_frequency
                    &&& self.bin(self.values@[k].count as nat).contains(k)
                } by {
                    assert(pre.values@.contains_key(k));
                }
            }
            self.update_frequency_bin(key);
            proof {
                self.lemma_model_dom();
            }
            return;
        }
        if self.len() >= self.capacity {
            self.evict();
        }
        let ghost mid = *self;
        self.values.insert(key, ValueCounter { value, count: 1 });
        self.min_frequency = 1;
        let mut first = match self.frequency_bin.remove(&1) {
            Some(b) => b,
            None => bucket_new(),
        };
        proof {
            assert(bucket_keys(first) == mid.bin(1));
            if mid.bin(1).contains(key) {
                let j = choose|j: int| 0 <= j < mid.bin(1).len() && #[trigger] mid.bin(1)[j] == key;
                assert(mid.values@.contains_key(mid.bin(1)[j]));
                mid.lemma_model_dom();
                assert(mid.values().contains_key(key));
                assert(pre.values().contains_key(key));
            }
        }
        bucket_push(&mut first, key);
        self.frequency_bin.insert(1, first);
        proof {
            self.lemma_model_dom();
            mid.lemma_model_dom();
            lemma_push_no_dup(mid.bin(1), key);
            assert(!mid.values@.contains_key(key));
            assert(self.values() == mid.values().insert(key, value));
            assert(self.counts() == mid.counts().insert(key, 1));
            assert(self.values@.len() == mid.values@.len() + 1);
            assert(self.bin(1)[mid.bin(1).len() as int] == key);
            assert forall|f: nat| f != 1 implies #[trigger] self.bin(f) == mid.bin(f) by {}
            assert forall|k: i32| #[trigger] self.values@.contains_key(k) implies {
                &&& self.values@[k].count >= 1
                &&& self.values@[k].count >= self.min_frequency
                &&& self.bin(self.values@[k].count as nat).contains(k)
            } by {
                if k != key {
                    assert(mid.values@.contains_key(k));
                    let ck = mid.values@[k].count as nat;
                    assert(mid.bin(ck).contains(k));
                    if ck == 1 {
                        let j = choose|j: int| 0 <= j < mid.bin(1).len() && #[trigger] mid.bin(1)[j] == k;
                        assert(self.bin(1)[j] == k);
                    }
                }
            }
            assert forall|f: nat, i: int| 0 <= i < self.bin(f).len() implies {
                &&& self.values@.contains_key(#[trigger] self.bin(f)[i])
                &&& self.values@[self.bin(f)[i]].count == f
            } by {
                if f == 1 && i == mid.bin(1).len() {
                } else {
                    assert(self.bin(f)[i] == mid.bin(f)[i]);
                    assert(mid.values@.contains_key(mid.bin(f)[i]));
                }
            }
        }
    }

    /// The value of a key; a hit raises the key's count by one.
    pub fn get(&mut self, key: &i32) -> (r: Option<&V>)
        requires
            old(self).wf(),
            old(self).values().contains_key(*key) ==> old(self).counts()[*key] < usize::MAX,
        ensures
            final(self).wf(),
            final(self).capacity() == old(self).capacity(),
            final(self).values() == old(self).values(),
            !old(self).values().contains_key(*key) ==> r is None && *final(self) == *old(self),
            old(self).values().contains_key(*key) ==> {
                let c = old(self).counts()[*key];
                &&& r is Some && *r.unwrap() == old(self).values()[*key]
                &&& final(self).counts() == old(self).counts().insert(*key, c + 1)
                &&& forall|f: nat| #[trigger]
                    final(self).bin(f) == old(self).bins_after_bump(*key, c, f)
                &&& final(self).min_frequency() == old(self).min_after_bump(*key, c)
            },
    {
        self.update_frequency_bin(*key);
        match self.values.get(key) {
            Some(vc) => Some(&vc.value),
            None => None,
        }
    }

    /// The key that the next eviction would take, without touching any count:
    /// the oldest key in the bucket of the tracked minimum. After a `remove`
    /// has emptied that bucket this is `None` until a new key comes in.
    pub fn peek_lfu_key(&mut self) -> (r: Option<i32>)
        requires
            old(self).wf(),
        ensures
            *final(self) == *old(self),
            r == (if old(self).bin(old(self).min_frequency()).len() > 0 {
                Some(old(self).lfu_key())
            } else {
                None::<i32>
            }),
            old(self).values().len() == 0 ==> r is None,
    {
        proof {
            self.lemma_model_dom();
            if self.values@.len() == 0 {
                self.values@.dom().lemma_len0_is_empty();
            }
            if self.bin(self.min_frequency as nat).len() > 0 {
                assert(self.values@.contains_key(self.bin(self.min_frequency as nat)[0]));
                assert(self.values().contains_key(self.bin(self.min_frequency as nat)[0]));
            }
        }
        match self.frequency_bin.get(&self.min_frequency) {
            Some(b) => bucket_front(b),
            None => None,
        }
    }

    proof fn lemma_model_dom(self)
        ensures
            self.values().dom() == self.values@.dom(),
            self.counts().dom() == self.values@.dom(),
            self.values().len() == self.values@.len(),
            self.values@.dom().finite(),
    {
        assert(self.values().dom() == self.values@.dom());
        assert(self.counts().dom() == self.values@.dom());
    }

    /// A mutable borrow of a key's value; a hit raises the key's count by one,
    /// and writing through the borrow does not raise it again.
    pub fn get_mut(&mut self, key: &i32) -> (r: Option<&mut V>)
        requires
            old(self).wf(),
            old(self).values().contains_key(*key) ==> old(self).counts()[*key] < usize::MAX,
        ensures
            final(self).wf(),
            final(self).capacity() == old(self).capacity(),
            !old(self).values().contains_key(*key) ==> r is None && *final(self) == *old(self),
            old(self).values().contains_key(*key) ==> {
                let c = old(self).counts()[*key];
                &&& r is Some
                &&& *r.unwrap() == old(self).values()[*key]
                &&& final(self).values() == old(self).values().insert(*key, *final(r.unwrap()))
                &&& final(self).counts() == old(self).counts().insert(*key, c + 1)
                &&& forall|f: nat| #[trigger]
                    final(self).bin(f) == old(self).bins_after_bump(*key, c, f)
                &&& final(self).min_frequency() == old(self).min_after_bump(*key, c)
            },
    {
        if !self.values.contains_key(key) {
            return None;
        }
        self.update_frequency_bin(*key);
        let ghost mid = *self;
        proof {
            mid.lemma_model_dom();
        }
        let r = value_mut(&mut self.values, *key);
        proof {
            assert forall|other: Self| mid.same_shape(other) implies #[trigger] other.wf() by {
                mid.lemma_same_shape(other);
            }
            assert forall|other: Self| mid.same_shape(other) implies #[trigger] other.counts()
                == mid.counts() by {
                mid.lemma_same_shape(other);
            }
            assert forall|other: Self, f: nat| mid.same_shape(other) implies #[trigger] other.bin(f)
                == mid.bin(f) by {}
            let c = mid.values@[*key].count;
            assert forall|other: Self, x: V|
                other.values@ == mid.values@.insert(*key, ValueCounter { value: x, count: c })
                implies #[trigger] other.values() == #[trigger] mid.values().insert(*key, x) by {
                assert(other.values() =~= mid.values().insert(*key, x));
            }
        }
        r
    }

    /// Two caches that differ at most in their stored values.
    spec fn same_shape(self, other: Self) -> bool {
        &&& other.frequency_bin == self.frequency_bin
        &&& other.capacity == self.capacity
        &&& other.min_frequency == self.min_frequency
        &&& other.values@.dom() == self.values@.dom()
        &&& forall|k: i32| #[trigger]
            self.values@.contains_key(k) ==> other.values@[k].count == self.values@[k].count
    }

    /// Changing stored values, and nothing else, keeps the invariant.
    proof fn lemma_same_shape(self, other: Self)
        requires
            self.wf(),
            self.same_shape(other),
        ensures
            other.wf(),
            other.counts() == self.counts(),
    {
        assert(other.values@.len() == self.values@.len());
        assert forall|f: nat, i: int| 0 <= i < other.bin(f).len() implies {
            &&& other.values@.contains_key(#[trigger] other.bin(f)[i])
            &&& other.values@[other.bin(f)[i]].count == f
        } by {
            assert(self.bin(f) == other.bin(f));
            assert(self.values@.contains_key(self.bin(f)[i]));
        }
        assert forall|k: i32| #[trigger] other.values@.contains_key(k) implies {
            &&& other.values@[k].count >= 1
            &&& other.values@[k].count >= other.min_frequency
            &&& other.bin(other.values@[k].count as nat).contains(k)
        } by {
            assert(self.values@.contains_key(k));
            assert(self.bin(self.values@[k].count as nat) == other.bin(self.values@[k].count as nat));
        }
        assert(other.counts() == self.counts());
    }

    /// The value of a key that must be present; the count is not raised.
    pub fn index(&self, key: i32) -> (r: &V)
        requires
            self.values().contains_key(key),
        ensures
            *r == self.values()[key],
    {
        &self.values.get(&key).unwrap().value
    }

    /// The access count of a key, if present.
    pub fn frequency(&self, key: &i32) -> (r: Option<usize>)
        ensures
            r == (if self.values().contains_key(*key) {
                Some(self.counts()[*key] as usize)
            } else {
                None::<usize>
            }),
    {
        match self.values.get(key) {
            Some(vc) => Some(vc.count),
            None => None,
        }
    }

    /// The keys present, each once, in the table's own order.
    fn key_list(&self) -> (r: Vec<i32>)
        ensures
            r@.to_set() == self.values().dom(),
            r@.no_duplicates(),
    {
        let ghost all = spec_keys_iter(&self.values).remaining();
        let mut r: Vec<i32> = Vec::new();
        for k in it: self.values.keys()
            invariant
                it.seq() == all,
                r@ == all.take(it.index() as int).map_values(|x: &i32| *x),
        {
            r.push(*k);
        }
        proof {
            assert(r@ == all.map_values(|x: &i32| *x));
            assert(r@ == all.unref());
            self.lemma_model_dom();
        }
        r
    }

    /// A traversal of the entries, in the table's own order.
    pub fn iter(&self) -> (r: LfuIterator<'_, V>)
        ensures
            r.wf(),
            r.source() == *self,
            r.pending() == self.values().dom(),
    {
        let keys = self.key_list();
        proof {
            assert(keys@.skip(0) == keys@);
            self.lemma_model_dom();
        }
        LfuIterator { cache: self, keys, pos: 0 }
    }

    /// Hands all entries out, in the table's own order.
    pub fn into_iter(self) -> (r: LfuConsumer<V>)
        ensures
            r.wf(),
            r.pending() == self.values(),
    {
        let keys = self.key_list();
        proof {
            self.lemma_model_dom();
        }
        let r = LfuConsumer { values: self.values, keys };
        proof {
            assert(r.pending() == self.values());
        }
        r
    }

    /// The stored values and the access counts cover the same keys, and
    /// there are finitely many of them.
    pub proof fn lemma_finite_domains(self)
        ensures
            self.counts().dom() == self.values().dom(),
            self.values().dom().finite(),
    {
        self.lemma_model_dom();
    }

    /// How keys sit in buckets: each bucket holds distinct keys, each of them
    /// present with that bucket's count; each present key has a count of at
    /// least one and at least the tracked minimum, and sits in the bucket of
    /// its count; and a full cache has a key in the bucket of the tracked
    /// minimum.
    pub proof fn lemma_bins_consistent(self)
        requires
            self.wf(),
        ensures
            forall|f: nat| #[trigger] self.bin(f).no_duplicates(),
            forall|f: nat, i: int|
                0 <= i < self.bin(f).len() ==> {
                    &&& self.values().contains_key(#[trigger] self.bin(f)[i])
                    &&& self.counts()[self.bin(f)[i]] == f
                },
            forall|k: i32| #[trigger]
                self.values().contains_key(k) ==> {
                    &&& self.counts()[k] >= 1
                    &&& self.counts()[k] >= self.min_frequency()
                    &&& self.bin(self.counts()[k]).contains(k)
                },
            self.values().len() == self.capacity() ==> self.bin(self.min_frequency()).len() > 0,
    {
        self.lemma_model_dom();
        assert forall|f: nat, i: int| 0 <= i < self.bin(f).len() implies {
            &&& self.values().contains_key(#[trigger] self.bin(f)[i])
            &&& self.counts()[self.bin(f)[i]] == f
        } by {
            assert(self.values@.contains_key(self.bin(f)[i]));
        }
        assert forall|k: i32| #[trigger] self.values().contains_key(k) implies {
            &&& self.counts()[k] >= 1
            &&& self.counts()[k] >= self.min_frequency()
            &&& self.bin(self.counts()[k]).contains(k)
        } by {
            assert(self.values@.contains_key(k));
        }
    }

    /// A cache never holds more entries than its capacity.
    pub proof fn lemma_capacity_bound(self)
        requires
            self.wf(),
        ensures
            self.values().len() <= self.capacity(),
    {
        self.lemma_model_dom();
    }

    /// When a full cache must make room, the key it evicts has the lowest
    /// access count of all keys present, and among the keys of that count it
    /// is the one that reached it first. The same holds of any cache whose
    /// tracked-minimum bucket holds a key.
    pub proof fn lemma_evicts_least_frequent_oldest(self)
        requires
            self.wf(),
            self.values().len() >= self.capacity() || self.bin(self.min_frequency()).len() > 0,
        ensures
            self.bin(self.min_frequency()).len() > 0,
            self.values().contains_key(self.lfu_key()),
            self.counts()[self.lfu_key()] == self.min_frequency(),
            self.bin(self.counts()[self.lfu_key()])[0] == self.lfu_key(),
            forall|k: i32| #[trigger]
                self.values().contains_key(k) ==> self.counts()[k] >= self.counts()[self.lfu_key()],
    {
        self.lemma_model_dom();
        let m = self.min_frequency as nat;
        assert(self.values@.contains_key(self.bin(m)[0]));
        assert forall|k: i32| #[trigger]
            self.values().contains_key(k) implies self.counts()[k] >= self.counts()[self.lfu_key()] by {
            assert(self.values@.contains_key(k));
        }
    }

    /// Right after `set(key, value)` the cache stores `value` under `key`, so a
    /// `get(key)` that follows returns it.
    pub proof fn lemma_set_then_get(self, key: i32, value: V)
        requires
            self.wf(),
        ensures
            self.values_after_set(key, value).contains_key(key),
            self.values_after_set(key, value)[key] == value,
    {
    }

    /// An empty cache has no eviction candidate, so peeking at it finds
    /// nothing.
    pub proof fn lemma_empty_has_no_candidate(self)
        requires
            self.wf(),
            self.values().len() == 0,
        ensures
            self.bin(self.min_frequency()).len() == 0,
    {
        self.lemma_model_dom();
        if self.bin(self.min_frequency()).len() > 0 {
            assert(self.values@.contains_key(self.bin(self.min_frequency as nat)[0]));
            self.values@.dom().lemma_len0_is_empty();
        }
    }
}

/// A traversal of a cache's entries that leaves access counts alone.
pub struct LfuIterator<'a, V> {
    cache: &'a LFUCache<V>,
    keys: Vec<i32>,
    pos: usize,
}

impl<'a, V> LfuIterator<'a, V> {
    /// The cache being traversed.
    pub closed spec fn source(self) -> LFUCache<V> {
        *self.cache
    }

    /// The keys not yet handed out.
    pub closed spec fn pending(self) -> Set<i32> {
        self.keys@.skip(self.pos as int).to_set()
    }

    /// Finitely many keys are left, so the traversal ends.
    pub proof fn lemma_pending_finite(self)
        ensures
            self.pending().finite(),
    {
        vstd::seq_lib::seq_to_set_is_finite(self.keys@.skip(self.pos as int));
    }

    pub closed spec fn wf(self) -> bool {
        &&& self.pos <= self.keys.len()
        &&& self.keys@.no_duplicates()
        &&& self.keys@.to_set() == self.cache.values().dom()
    }

    /// The next key with its value, if any is left.
    pub fn next(&mut self) -> (r: Option<(i32, &'a V)>)
        requires
            old(self).wf(),
        ensures
            final(self).wf(),
            final(self).source() == old(self).source(),
            old(self).pending().len() == 0 <==> r is None,
            r is None ==> final(self).pending() == old(self).pending(),
            r matches Some((k, v)) ==> {
                &&& old(self).pending().contains(k)
                &&& *v == old(self).source().values()[k]
                &&& final(self).pending() == old(self).pending().remove(k)
            },
    {
        let ghost rest = self.keys@.skip(self.pos as int);
        proof {
            rest.lemma_cardinality_of_set();
            lemma_no_dup_skip(self.keys@, self.pos as int);
            if rest.len() > 0 {
                assert(rest.to_set().contains(rest[0]));
            }
        }
        if self.pos >= self.keys.len() {
            proof {
                assert(rest.len() == 0);
                assert(rest.to_set() =~= Set::empty());
            }
            return None;
        }
        let k = self.keys[self.pos];
        let cache: &'a LFUCache<V> = self.cache;
        proof {
            assert(self.keys@.to_set().contains(k));
            cache.lemma_model_dom();
        }
        let v = &cache.values.get(&k).unwrap().value;
        self.pos = self.pos + 1;
        proof {
            assert(rest.drop_first() == self.keys@.skip(self.pos as int));
            lemma_no_dup_skip(self.keys@, self.pos as int);
            lemma_drop_first_set(rest);
        }
        Some((k, v))
    }
}

/// Takes the entries out of a cache, one at a time.
pub struct LfuConsumer<V> {
    values: HashMap<i32, ValueCounter<V>>,
    keys: Vec<i32>,
}

impl<V> LfuConsumer<V> {
    /// The entries not yet handed out.
    pub closed spec fn pending(self) -> Map<i32, V> {
        self.values@.map_values(|vc: ValueCounter<V>| vc.value)
    }

    /// Finitely many entries are left, so the hand-out ends.
    pub proof fn lemma_pending_finite(self)
        ensures
            self.pending().dom().finite(),
    {
        assert(self.pending().dom() == self.values@.dom());
    }

    pub closed spec fn wf(self) -> bool {
        &&& self.keys@.no_duplicates()
        &&& self.keys@.to_set() == self.values@.dom()
    }

    /// Removes and returns some entry, if any is left.
    pub fn next(&mut self) -> (r: Option<(i32, V)>)
        requires
            old(self).wf(),
        ensures
            final(self).wf(),
            old(self).pending().len() == 0 <==> r is None,
            r is None ==> final(self).pending() == old(self).pending(),
            r matches Some((k, v)) ==> {
                &&& old(self).pending().contains_key(k)
                &&& v == old(self).pending()[k]
                &&& final(self).pending() == old(self).pending().remove(k)
            },
    {
        let ghost pre = self.keys@;
        proof {
            assert(self.pending().dom() == self.values@.dom());
            pre.lemma_cardinality_of_set();
            if pre.len() > 0 {
                assert(pre.to_set().contains(pre.last()));
            }
        }
        match self.keys.pop() {
            None => {
                proof {
                    assert(pre.to_set() =~= Set::empty());
                }
                None
            },
            Some(k) => {
                proof {
                    assert(pre.to_set().contains(k));
                    lemma_drop_last_set(pre);
                }
                let vc = self.values.remove(&k).unwrap();
                proof {
                    assert(self.pending() =~= old(self).pending().remove(k));
                }
                Some((k, vc.value))
            },
        }
    }
}

proof fn lemma_no_dup_skip(s: Seq<i32>, n: int)
    requires
        s.no_duplicates(),
        0 <= n <= s.len(),
    ensures
        s.skip(n).no_duplicates(),
{
    let t = s.skip(n);
    assert forall|a: int, b: int| 0 <= a < t.len() && 0 <= b < t.len() && a != b implies t[a]
        != t[b] by {
        assert(t[a] == s[a + n] && t[b] == s[b + n]);
    }
}

proof fn lemma_drop_first_set(s: Seq<i32>)
    requires
        s.no_duplicates(),
        s.len() > 0,
    ensures
        s.drop_first().to_set() == s.to_set().remove(s[0]),
{
    let t = s.drop_first();
    assert forall|x: i32| t.to_set().contains(x) <==> s.to_set().remove(s[0]).contains(x) by {
        if t.to_set().contains(x) {
            let j = choose|j: int| 0 <= j < t.len() && #[trigger] t[j] == x;
            assert(s[j + 1] == x);
        }
        if s.to_set().remove(s[0]).contains(x) {
            let j = choose|j: int| 0 <= j < s.len() && #[trigger] s[j] == x;
            assert(j != 0);
            assert(t[j - 1] == x);
        }
    }
    assert(t.to_set() =~= s.to_set().remove(s[0]));
}

proof fn lemma_drop_last_set(s: Seq<i32>)
    requires
        s.no_duplicates(),
        s.len() > 0,
    ensures
        s.drop_last().to_set() == s.to_set().remove(s.last()),
        s.drop_last().no_duplicates(),
{
    let t = s.drop_last();
    assert forall|x: i32| t.to_set().contains(x) <==> s.to_set().remove(s.last()).contains(x) by {
        if t.to_set().contains(x) {
            let j = choose|j: int| 0 <= j < t.len() && #[trigger] t[j] == x;
            assert(s[j] == x);
        }
        if s.to_set().remove(s.last()).contains(x) {
            let j = choose|j: int| 0 <= j < s.len() && #[trigger] s[j] == x;
            assert(j != s.len() - 1);
            assert(t[j] == x);
        }
    }
    assert(t.to_set() =~= s.to_set().remove(s.last()));
    assert forall|a: int, b: int| 0 <= a < t.len() && 0 <= b < t.len() && a != b implies t[a]
        != t[b] by {
        assert(t[a] == s[a] && t[b] == s[b]);
    }
}

/// Relies on `HashMap::get_mut`: a mutable borrow of the value stored under a
/// present key, whose final value becomes the entry's value.
#[verifier::external_body]
fn value_mut<V>(m: &mut HashMap<i32, ValueCounter<V>>, k: i32) -> (r: Option<&mut V>)
    ensures
        r is Some == old(m)@.contains_key(k),
        r is None ==> final(m)@ == old(m)@,
        r is Some ==> {
            &&& *r.unwrap() == old(m)@[k].value
            &&& final(m)@ == old(m)@.insert(
                k,
                ValueCounter { value: *final(r.unwrap()), count: old(m)@[k].count },
            )
        },
{
    m.get_mut(&k).map(|vc| &mut vc.value)
}

proof fn lemma_remove_no_dup(s: Seq<i32>, k: i32)
    requires
        s.no_duplicates(),
        s.contains(k),
    ensures
        0 <= s.index_of(k) < s.len(),
        s[s.index_of(k)] == k,
        s.remove(s.index_of(k)).no_duplicates(),
        !s.remove(s.index_of(k)).contains(k),
        s.remove(s.index_of(k)).len() == s.len() - 1,
{
    let j = s.index_of(k);
    let t = s.remove(j);
    assert forall|a: int, b: int| 0 <= a < t.len() && 0 <= b < t.len() && a != b implies t[a]
        != t[b] by {
        let a2 = if a < j { a } else { a + 1 };
        let b2 = if b < j { b } else { b + 1 };
        assert(t[a] == s[a2] && t[b] == s[b2]);
    }
    if t.contains(k) {
        let a = choose|a: int| 0 <= a < t.len() && t[a] == k;
        let a2 = if a < j { a } else { a + 1 };
        assert(s[a2] == k);
    }
}

proof fn lemma_remove_keeps_others(s: Seq<i32>, k: i32, x: i32)
    requires
        s.contains(k),
        s.contains(x),
        x != k,
    ensures
        s.remove(s.index_of(k)).contains(x),
{
    let j = s.index_of(k);
    let a = choose|a: int| 0 <= a < s.len() && s[a] == x;
    let a2 = if a < j { a } else { a - 1 };
    assert(s.remove(j)[a2] == x);
}

proof fn lemma_remove_from_old(s: Seq<i32>, k: i32, i: int)
    requires
        s.contains(k),
        0 <= i < s.len() - 1,
    ensures
        0 <= s.index_of(k) < s.len(),
        i < s.index_of(k) ==> s.remove(s.index_of(k))[i] == s[i],
        i >= s.index_of(k) ==> s.remove(s.index_of(k))[i] == s[i + 1],
{
}

proof fn lemma_push_no_dup(s: Seq<i32>, k: i32)
    requires
        s.no_duplicates(),
        !s.contains(k),
    ensures
        s.push(k).no_duplicates(),
{
    let t = s.push(k);
    assert forall|a: int, b: int| 0 <= a < t.len() && 0 <= b < t.len() && a != b implies t[a]
        != t[b] by {
        if a < s.len() && b < s.len() {
            assert(t[a] == s[a] && t[b] == s[b]);
        } else if a < s.len() {
            assert(t[a] == s[a]);
        } else if b < s.len() {
            assert(t[b] == s[b]);
        }
    }
}

} // verus!
