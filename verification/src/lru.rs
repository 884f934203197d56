use std::collections::BTreeMap;
use std::collections::VecDeque;
use vstd::prelude::*;

verus! {

broadcast use {vstd::std_specs::btree::group_btree_axioms, vstd::laws_cmp::group_laws_cmp};

/// The order of `keys` after `k` has been used: `k` moves to the back
/// (most recently used end) when present; the order is unchanged otherwise.
pub open spec fn refreshed(keys: Seq<usize>, k: usize) -> Seq<usize> {
    if keys.contains(k) {
        keys.remove(keys.index_of(k)).push(k)
    } else {
        keys
    }
}

/// The order of `keys` after `k` has been removed.
pub open spec fn without_key(keys: Seq<usize>, k: usize) -> Seq<usize> {
    if keys.contains(k) {
        keys.remove(keys.index_of(k))
    } else {
        keys
    }
}

proof fn lemma_index_of_unique(keys: Seq<usize>, i: int)
    requires
        keys.no_duplicates(),
        0 <= i < keys.len(),
    ensures
        keys.contains(keys[i]),
        keys.index_of(keys[i]) == i,
{
    let k = keys[i];
    assert(keys.contains(k));
    let j = keys.index_of(k);
    assert(0 <= j < keys.len() && keys[j] == k);
}

proof fn lemma_remove_keeps_distinct(keys: Seq<usize>, i: int)
    requires
        keys.no_duplicates(),
        0 <= i < keys.len(),
    ensures
        keys.remove(i).no_duplicates(),
        !keys.remove(i).contains(keys[i]),
        forall|x: usize| x != keys[i] ==> (keys.remove(i).contains(x) <==> keys.contains(x)),
{
    let r = keys.remove(i);
    assert forall|a: int, b: int| 0 <= a < b < r.len() implies r[a] != r[b] by {
        let a2 = if a < i { a } else { a + 1 };
        let b2 = if b < i { b } else { b + 1 };
        assert(r[a] == keys[a2] && r[b] == keys[b2]);
    }
    assert forall|x: usize| x != keys[i] implies (r.contains(x) <==> keys.contains(x)) by {
        if keys.contains(x) {
            let j = choose|j: int| 0 <= j < keys.len() && keys[j] == x;
            let j2 = if j < i { j } else { j - 1 };
            assert(r[j2] == x);
        }
        if r.contains(x) {
            let j = choose|j: int| 0 <= j < r.len() && r[j] == x;
            let j2 = if j < i { j } else { j + 1 };
            assert(keys[j2] == x);
        }
    }
    if r.contains(keys[i]) {
        let j = choose|j: int| 0 <= j < r.len() && r[j] == keys[i];
        let j2 = if j < i { j } else { j + 1 };
        assert(keys[j2] == keys[i]);
    }
}

/// A dictionary that remembers the order in which its keys were first set.
struct OrderedDictionary<V> {
    keys: VecDeque<usize>,
    dict: BTreeMap<usize, V>,
}

impl<V> OrderedDictionary<V> {
    spec fn wf(&self) -> bool {
        &&& self.keys@.no_duplicates()
        &&& forall|k: usize| #[trigger] self.dict@.contains_key(k) <==> self.keys@.contains(k)
    }

    fn new() -> (r: Self)
        ensures
            r.wf(),
            r.keys@ == Seq::<usize>::empty(),
            r.dict@ == Map::<usize, V>::empty(),
    {
        Self { keys: VecDeque::new(), dict: BTreeMap::new() }
    }

    fn get(&self, key: &usize) -> (r: Option<&V>)
        ensures
            self.dict@.contains_key(*key) ==> r == Some(&self.dict@[*key]),
            !self.dict@.contains_key(*key) ==> r is None,
    {
        self.dict.get(key)
    }

    fn set(&mut self, key: usize, value: V)
        requires
            old(self).wf(),
        ensures
            final(self).wf(),
            final(self).dict@ == old(self).dict@.insert(key, value),
            final(self).keys@ == (if old(self).keys@.contains(key) {
                old(self).keys@
            } else {
                old(self).keys@.push(key)
            }),
    {
        if !self.dict.contains_key(&key) {
            self.keys.push_back(key);
            proof {
                assert(!old(self).keys@.contains(key));
                assert forall|a: int, b: int| 0 <= a < b < self.keys@.len() implies self.keys@[a]
                    != self.keys@[b] by {
                    if b == self.keys@.len() - 1 {
                        assert(old(self).keys@[a] == self.keys@[a]);
                    }
                }
                assert forall|k: usize| self.keys@.contains(k) implies old(self).keys@.contains(k)
                    || k == key by {
                    let j = choose|j: int| 0 <= j < self.keys@.len() && self.keys@[j] == k;
                    if j < old(self).keys@.len() {
                        assert(old(self).keys@[j] == k);
                    }
                }
                assert forall|k: usize| old(self).keys@.contains(k) implies self.keys@.contains(
                    k,
                ) by {
                    let j = choose|j: int| 0 <= j < old(self).keys@.len() && old(self).keys@[j] == k;
                    assert(self.keys@[j] == k);
                }
                assert(self.keys@[self.keys@.len() - 1] == key);
            }
        }
        self.dict.insert(key, value);
    }

    fn position(&self, key: &usize) -> (r: Option<usize>)
        requires
            self.wf(),
        ensures
            r is Some <==> self.keys@.contains(*key),
            r matches Some(i) ==> i < self.keys@.len() && self.keys@[i as int] == *key
                && self.keys@.index_of(*key) == i,
    {
        let mut i: usize = 0;
        while i < self.keys.len()
            invariant
                self.wf(),
                i <= self.keys@.len(),
                forall|j: int| 0 <= j < i ==> self.keys@[j] != *key,
            decreases self.keys@.len() - i,
        {
            if self.keys[i] == *key {
                proof {
                    lemma_index_of_unique(self.keys@, i as int);
                }
                return Some(i);
            }
            i += 1;
        }
        None
    }

    fn remove(&mut self, key: &usize)
        requires
            old(self).wf(),
        ensures
            final(self).wf(),
            final(self).dict@ == old(self).dict@.remove(*key),
            final(self).keys@ == without_key(old(self).keys@, *key),
    {
        if self.dict.contains_key(key) {
            let index = self.position(key).unwrap();
            self.keys.remove(index);
            proof {
                lemma_remove_keeps_distinct(old(self).keys@, index as int);
            }
        }
        self.dict.remove(key);
    }

    fn values(&self) -> (r: Vec<&V>)
        requires
            self.wf(),
        ensures
            r@.len() == self.keys@.len(),
            forall|i: int|
                0 <= i < r@.len() ==> *#[trigger] r@[i] == self.dict@[self.keys@[i]],
    {
        let mut v: Vec<&V> = Vec::new();
        let mut i: usize = 0;
        while i < self.keys.len()
            invariant
                self.wf(),
                i <= self.keys@.len(),
                v@.len() == i,
                forall|j: int| 0 <= j < i ==> *#[trigger] v@[j] == self.dict@[self.keys@[j]],
            decreases self.keys@.len() - i,
        {
            let key = self.keys[i];
            assert(self.keys@.contains(key)) by {
                assert(self.keys@[i as int] == key);
            }
            let value = self.dict.get(&key).unwrap();
            v.push(value);
            i += 1;
        }
        v
    }
}

/// A key-value cache of bounded capacity that evicts the least recently used key.
pub struct LRUCache<V> {
    dict: OrderedDictionary<V>,
    capacity: usize,
}

impl<V> LRUCache<V> {
    /// Keys from least recently used to most recently used.
    pub closed spec fn key_order(&self) -> Seq<usize> {
        self.dict.keys@
    }

    /// The cached values.
    pub closed spec fn map(&self) -> Map<usize, V> {
        self.dict.dict@
    }

    pub closed spec fn capacity(&self) -> usize {
        self.capacity
    }

    /// Every cached key occurs exactly once in the usage order.
    pub closed spec fn wf(&self) -> bool {
        self.dict.wf()
    }

    /// In a well-formed cache every key occurs once in the usage order, and exactly the cached keys do.
    pub proof fn lemma_wf(&self)
        requires
            self.wf(),
        ensures
            self.key_order().no_duplicates(),
            forall|k: usize| #[trigger]
                self.map().contains_key(k) <==> self.key_order().contains(k),
    {
    }

    pub fn new(capacity: usize) -> (r: Self)
        ensures
            r.wf(),
            r.key_order() == Seq::<usize>::empty(),
            r.map() == Map::<usize, V>::empty(),
            r.capacity() == capacity,
    {
        Self { dict: OrderedDictionary::new(), capacity }
    }

    /// Marks `k` as the most recently used key.
    fn refresh(&mut self, k: &usize)
        requires
            old(self).wf(),
        ensures
            final(self).wf(),
            final(self).map() == old(self).map(),
            final(self).capacity() == old(self).capacity(),
            final(self).key_order() == refreshed(old(self).key_order(), *k),
    {
        if let Some(index) = self.dict.position(k) {
            self.dict.keys.remove(index);
            self.dict.keys.push_back(*k);
            proof {
                let old_keys = old(self).dict.keys@;
                lemma_remove_keeps_distinct(old_keys, index as int);
                let r = old_keys.remove(index as int);
                assert(self.dict.keys@ == r.push(*k));
                assert forall|a: int, b: int|
                    0 <= a < b < self.dict.keys@.len() implies self.dict.keys@[a]
                    != self.dict.keys@[b] by {
                    if b == self.dict.keys@.len() - 1 {
                        assert(r[a] == self.dict.keys@[a]);
                        assert(r.contains(r[a]));
                    }
                }
                assert forall|x: usize| self.dict.keys@.contains(x) <==> old_keys.contains(x) by {
                    if x != *k {
                        if self.dict.keys@.contains(x) {
                            let j = choose|j: int|
                                0 <= j < self.dict.keys@.len() && self.dict.keys@[j] == x;
                            assert(r[j] == x);
                        }
                        if r.contains(x) {
                            let j = choose|j: int| 0 <= j < r.len() && r[j] == x;
                            assert(self.dict.keys@[j] == x);
                        }
                    } else {
                        assert(self.dict.keys@[self.dict.keys@.len() - 1] == x);
                    }
                }
            }
        }
    }

    /// Evicts the least recently used key and hands back its entry.
    fn remove_least_used(&mut self) -> (r: Option<(usize, V)>)
        requires
            old(self).wf(),
        ensures
            final(self).wf(),
            final(self).capacity() == old(self).capacity(),
            old(self).key_order().len() == 0 ==> r is None && final(self).map() == old(self).map()
                && final(self).key_order() == old(self).key_order(),
            old(self).key_order().len() > 0 ==> {
                let k = old(self).key_order()[0];
                &&& r == Some((k, old(self).map()[k]))
                &&& final(self).map() == old(self).map().remove(k)
                &&& final(self).key_order() == old(self).key_order().drop_first()
            },
    {
        if self.dict.keys.len() == 0 {
            return None;
        }
        let key = self.dict.keys[0];
        proof {
            lemma_index_of_unique(self.dict.keys@, 0);
            assert(old(self).dict.keys@.remove(0) =~= old(self).dict.keys@.drop_first());
        }
        self.dict.keys.remove(0);
        proof {
            lemma_remove_keeps_distinct(old(self).dict.keys@, 0);
        }
        let value = self.dict.dict.remove(&key).unwrap();
        Some((key, value))
    }

    /// Looks `key` up and marks it as the most recently used key.
    pub fn get(&mut self, key: &usize) -> (r: Option<&V>)
        requires
            old(self).wf(),
        ensures
            final(self).wf(),
            final(self).map() == old(self).map(),
            final(self).capacity() == old(self).capacity(),
            final(self).key_order() == refreshed(old(self).key_order(), *key),
            old(self).map().contains_key(*key) ==> r == Some(&old(self).map()[*key]),
            !old(self).map().contains_key(*key) ==> r is None,
    {
        self.refresh(key);
        self.dict.get(key)
    }

    /// Stores `value` under `key` as the most recently used entry.  When `key` is new and the
    /// cache holds `capacity` keys, the least recently used entry is evicted first and handed
    /// back to the caller.
    pub fn set(&mut self, key: usize, value: V) -> (evicted: Option<(usize, V)>)
        requires
            old(self).wf(),
        ensures
            final(self).wf(),
            final(self).capacity() == old(self).capacity(),
            ({
                let keys = old(self).key_order();
                let m = old(self).map();
                if m.contains_key(key) {
                    &&& evicted is None
                    &&& final(self).key_order() == refreshed(keys, key)
                    &&& final(self).map() == m.insert(key, value)
                } else if keys.len() == old(self).capacity() && keys.len() > 0 {
                    &&& evicted == Some((keys[0], m[keys[0]]))
                    &&& final(self).key_order() == keys.drop_first().push(key)
                    &&& final(self).map() == m.remove(keys[0]).insert(key, value)
                } else {
                    &&& evicted is None
                    &&& final(self).key_order() == keys.push(key)
                    &&& final(self).map() == m.insert(key, value)
                }
            }),
            old(self).key_order().len() <= old(self).capacity() && old(self).capacity() > 0
                ==> final(self).key_order().len() <= final(self).capacity(),
    {
        let mut evicted = None;
        if self.dict.get(&key).is_some() {
            self.refresh(&key);
        } else {
            if self.dict.keys.len() == self.capacity {
                evicted = self.remove_least_used();
            }
        }
        self.dict.set(key, value);
        proof {
            let keys = old(self).key_order();
            if !old(self).map().contains_key(key) && keys.len() == old(self).capacity() && keys.len()
                > 0 {
                assert(!keys.contains(key));
                assert(!keys.drop_first().contains(key)) by {
                    if keys.drop_first().contains(key) {
                        let j = choose|j: int|
                            0 <= j < keys.drop_first().len() && keys.drop_first()[j] == key;
                        assert(keys[j + 1] == key);
                    }
                }
            }
        }
        evicted
    }

    /// Looks `key` up without changing the usage order.
    pub fn peek(&self, key: &usize) -> (r: Option<&V>)
        ensures
            self.map().contains_key(*key) ==> r == Some(&self.map()[*key]),
            !self.map().contains_key(*key) ==> r is None,
    {
        self.dict.get(key)
    }

    /// The cached values, from least recently used to most recently used.
    pub fn values(&self) -> (r: Vec<&V>)
        requires
            self.wf(),
        ensures
            r@.len() == self.key_order().len(),
            forall|i: int|
                0 <= i < r@.len() ==> *#[trigger] r@[i] == self.map()[self.key_order()[i]],
    {
        self.dict.values()
    }

    /// The cached keys, from least recently used to most recently used.
    pub fn keys(&self) -> (r: Vec<usize>)
        ensures
            r@ == self.key_order(),
    {
        let mut v: Vec<usize> = Vec::new();
        let mut i: usize = 0;
        while i < self.dict.keys.len()
            invariant
                i <= self.dict.keys@.len(),
                v@ == self.dict.keys@.take(i as int),
            decreases self.dict.keys@.len() - i,
        {
            v.push(self.dict.keys[i]);
            i += 1;
            assert(v@ =~= self.dict.keys@.take(i as int));
        }
        assert(self.dict.keys@.take(i as int) =~= self.dict.keys@);
        v
    }

    /// Replaces the value of a cached key without changing the usage order.
    pub fn replace(&mut self, key: usize, value: V)
        requires
            old(self).wf(),
            old(self).map().contains_key(key),
        ensures
            final(self).wf(),
            final(self).capacity() == old(self).capacity(),
            final(self).key_order() == old(self).key_order(),
            final(self).map() == old(self).map().insert(key, value),
    {
        self.dict.set(key, value);
    }
}

} // verus!
