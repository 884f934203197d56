use std::collections::BTreeMap;
use vstd::prelude::*;

verus! {

broadcast use {vstd::std_specs::btree::group_btree_axioms, vstd::laws_cmp::group_laws_cmp};

/// Hands out numbers: the ones given back first, the last given back first, then fresh ones in
/// increasing order.
#[derive(Clone)]
pub struct IDAllocator {
    current: usize,
    recycled: Vec<usize>,
}

impl IDAllocator {
    /// The next fresh number.
    pub closed spec fn next(&self) -> int {
        self.current as int
    }

    /// The numbers given back and not handed out again, oldest first.
    pub closed spec fn recycled(&self) -> Seq<usize> {
        self.recycled@
    }

    /// Every number given back was handed out before, and none was given back twice.
    pub open spec fn wf(&self) -> bool {
        &&& forall|i: int| 0 <= i < self.recycled().len() ==> #[trigger] self.recycled()[i] < self.next()
        &&& forall|i: int, j: int| 0 <= i < j < self.recycled().len() ==> #[trigger] self.recycled()[i] != #[trigger] self.recycled()[j]
    }

    /// An allocator that has handed out nothing.
    pub fn new() -> (r: Self)
        ensures
            r.next() == 0,
            r.recycled() == Seq::<usize>::empty(),
            r.wf(),
    {
        Self { current: 0, recycled: Vec::new() }
    }

    /// Hands out a number: the last one given back, or else the next fresh one.
    pub fn allocate(&mut self) -> (r: usize)
        requires
            old(self).recycled().len() == 0 ==> old(self).next() < usize::MAX,
        ensures
            old(self).recycled().len() > 0 ==> {
                &&& r == old(self).recycled().last()
                &&& final(self).recycled() == old(self).recycled().drop_last()
                &&& final(self).next() == old(self).next()
            },
            old(self).recycled().len() == 0 ==> {
                &&& r == old(self).next()
                &&& final(self).recycled() == old(self).recycled()
                &&& final(self).next() == old(self).next() + 1
            },
            old(self).wf() ==> final(self).wf(),
            old(self).wf() ==> r < final(self).next(),
            old(self).wf() ==> forall|i: int| 0 <= i < final(self).recycled().len() ==> #[trigger] final(self).recycled()[i] != r,
    {
        match self.recycled.pop() {
            Some(id) => id,
            None => {
                let id = self.current;
                self.current += 1;
                id
            },
        }
    }

    /// Takes number `id` back.
    fn dealloc(&mut self, id: usize)
        ensures
            final(self).recycled() == old(self).recycled().push(id),
            final(self).next() == old(self).next(),
    {
        self.recycled.push(id);
    }
}

/// Going from `a0` to `a1` handed out `r`: the last number given back, or else the next fresh
/// one.
pub open spec fn hands_out(a0: IDAllocator, a1: IDAllocator, r: usize) -> bool {
    &&& a0.recycled().len() > 0 ==> {
        &&& r == a0.recycled().last()
        &&& a1.recycled() == a0.recycled().drop_last()
        &&& a1.next() == a0.next()
    }
    &&& a0.recycled().len() == 0 ==> {
        &&& r == a0.next()
        &&& a1.recycled() == a0.recycled()
        &&& a1.next() == a0.next() + 1
    }
}

/// A table of values, each under a number handed out by an [`IDAllocator`].
#[derive(Clone)]
pub struct IDAllocDict<V> {
    dict: BTreeMap<usize, V>,
    id_allocator: IDAllocator,
}

impl<V> IDAllocDict<V> {
    /// The values by number.
    pub closed spec fn view(&self) -> Map<usize, V> {
        self.dict@
    }

    /// The allocator of the numbers.
    pub closed spec fn ids(&self) -> IDAllocator {
        self.id_allocator
    }

    /// Every number in use came from the allocator and is not waiting for reuse.
    pub open spec fn wf(&self) -> bool {
        &&& self.ids().wf()
        &&& forall|id: usize| #[trigger] self@.contains_key(id) ==> id < self.ids().next()
        &&& forall|i: int| 0 <= i < self.ids().recycled().len() ==> !self@.contains_key(#[trigger] self.ids().recycled()[i])
    }

    /// An empty table.
    pub fn new() -> (r: Self)
        ensures
            r@ == Map::<usize, V>::empty(),
            r.ids().next() == 0,
            r.ids().recycled() == Seq::<usize>::empty(),
            r.wf(),
    {
        Self { dict: BTreeMap::new(), id_allocator: IDAllocator::new() }
    }

    /// Stores `value` under a newly handed-out number and returns the number.
    pub fn insert(&mut self, value: V) -> (r: usize)
        requires
            old(self).ids().recycled().len() == 0 ==> old(self).ids().next() < usize::MAX,
        ensures
            final(self)@ == old(self)@.insert(r, value),
            old(self).ids().recycled().len() > 0 ==> {
                &&& r == old(self).ids().recycled().last()
                &&& final(self).ids().recycled() == old(self).ids().recycled().drop_last()
                &&& final(self).ids().next() == old(self).ids().next()
            },
            old(self).ids().recycled().len() == 0 ==> {
                &&& r == old(self).ids().next()
                &&& final(self).ids().recycled() == old(self).ids().recycled()
                &&& final(self).ids().next() == old(self).ids().next() + 1
            },
            old(self).wf() ==> !old(self)@.contains_key(r),
            old(self).wf() ==> final(self).wf(),
    {
        let id = self.id_allocator.allocate();
        self.dict.insert(id, value);
        proof {
            if old(self).wf() {
                if old(self).ids().recycled().len() > 0 {
                    let k = old(self).ids().recycled().len() - 1;
                    assert(old(self).ids().recycled()[k] == id);
                }
                assert forall|i: int| 0 <= i < self.ids().recycled().len() implies !self@.contains_key(#[trigger] self.ids().recycled()[i]) by {
                    assert(self.ids().recycled()[i] == old(self).ids().recycled()[i]);
                }
            }
        }
        id
    }

    /// The value stored under `id`.
    pub fn get(&self, id: usize) -> (r: Option<&V>)
        ensures
            match r {
                Some(v) => self@.contains_key(id) && *v == self@[id],
                None => !self@.contains_key(id),
            },
    {
        self.dict.get(&id)
    }

    /// The value stored under `id`, to change in place.
    pub fn get_mut(&mut self, id: usize) -> (r: Option<&mut V>)
        ensures
            match r {
                Some(v) => {
                    &&& old(self)@.contains_key(id)
                    &&& *v == old(self)@[id]
                    &&& final(self)@ == old(self)@.insert(id, *final(v))
                    &&& final(self).ids() == old(self).ids()
                },
                None => !old(self)@.contains_key(id) && final(self)@ == old(self)@ && final(self).ids() == old(self).ids(),
            },
    {
        map_get_mut(&mut self.dict, id)
    }

    /// Removes the value stored under `id` and gives the number back for reuse.
    pub fn remove(&mut self, id: usize)
        ensures
            final(self)@ == old(self)@.remove(id),
            final(self).ids().recycled() == old(self).ids().recycled().push(id),
            final(self).ids().next() == old(self).ids().next(),
            old(self).wf() && old(self)@.contains_key(id) ==> final(self).wf(),
    {
        self.dict.remove(&id);
        self.id_allocator.dealloc(id);
        proof {
            if old(self).wf() && old(self)@.contains_key(id) {
                assert forall|i: int, j: int| 0 <= i < j < self.ids().recycled().len() implies #[trigger] self.ids().recycled()[i]
                    != #[trigger] self.ids().recycled()[j] by {
                    if j == old(self).ids().recycled().len() {
                        assert(!old(self)@.contains_key(old(self).ids().recycled()[i]));
                    }
                }
                assert forall|i: int| 0 <= i < self.ids().recycled().len() implies !self@.contains_key(#[trigger] self.ids().recycled()[i]) by {
                    if i < old(self).ids().recycled().len() {
                        assert(!old(self)@.contains_key(old(self).ids().recycled()[i]));
                    }
                }
            }
        }
    }

    /// The numbers in use with their values, in increasing order of number.
    pub fn iter(&self) -> (r: Vec<(usize, &V)>)
        requires
            self.wf(),
        ensures
            forall|i: int| #![trigger r@[i]] 0 <= i < r@.len() ==> self@.contains_key(r@[i].0) && *r@[i].1 == self@[r@[i].0],
            forall|i: int, j: int| 0 <= i < j < r@.len() ==> #[trigger] r@[i].0 < #[trigger] r@[j].0,
            forall|id: usize| #[trigger] self@.contains_key(id) ==> exists|i: int| 0 <= i < r@.len() && r@[i].0 == id,
    {
        let mut v: Vec<(usize, &V)> = Vec::new();
        let mut id: usize = 0;
        let end = self.id_allocator.current;
        while id < end
            invariant
                self.wf(),
                end == self.ids().next(),
                id <= end,
                forall|i: int| #![trigger v@[i]] 0 <= i < v@.len() ==> self@.contains_key(v@[i].0) && *v@[i].1 == self@[v@[i].0],
                forall|i: int| 0 <= i < v@.len() ==> #[trigger] v@[i].0 < id,
                forall|i: int, j: int| 0 <= i < j < v@.len() ==> #[trigger] v@[i].0 < #[trigger] v@[j].0,
                forall|k: usize| k < id && #[trigger] self@.contains_key(k) ==> exists|i: int| 0 <= i < v@.len() && v@[i].0 == k,
            decreases end - id,
        {
            match self.dict.get(&id) {
                Some(value) => {
                    let ghost old_v = v@;
                    v.push((id, value));
                    assert forall|k: usize| k < id + 1 && #[trigger] self@.contains_key(k) implies exists|i: int| 0 <= i < v@.len() && v@[i].0 == k by {
                        if k == id {
                            assert(v@[old_v.len() as int].0 == k);
                        } else {
                            let i = choose|i: int| 0 <= i < old_v.len() && old_v[i].0 == k;
                            assert(v@[i].0 == k);
                        }
                    }
                },
                None => {},
            }
            id += 1;
        }
        v
    }

    /// The value under the `n`-th number in use, counted from 0 in increasing order of
    /// number, to change in place; `None` when fewer than `n + 1` numbers are in use.
    pub fn values_mut(&mut self, n: usize) -> (r: Option<&mut V>)
        ensures
            ({
                let order = ids_below(old(self)@, old(self).ids().next() as nat);
                match r {
                    Some(v) => {
                        &&& n < order.len()
                        &&& *v == old(self)@[order[n as int]]
                        &&& final(self)@ == old(self)@.insert(order[n as int], *final(v))
                        &&& final(self).ids() == old(self).ids()
                    },
                    None => n >= order.len() && final(self)@ == old(self)@ && final(self).ids() == old(self).ids(),
                }
            }),
    {
        let ghost m = self@;
        let end = self.id_allocator.current;
        let mut id: usize = 0;
        let mut count: usize = 0;
        while id < end
            invariant
                id <= end,
                end == old(self).ids().next(),
                self@ == m,
                m == old(self)@,
                self.ids() == old(self).ids(),
                count <= id,
                count <= n,
                count == ids_below(m, id as nat).len(),
            decreases end - id,
        {
            if self.dict.get(&id).is_some() {
                if count == n {
                    proof {
                        lemma_ids_below_prefix(m, (id + 1) as nat, end as nat);
                        assert(ids_below(m, (id + 1) as nat)[count as int] == id);
                    }
                    return self.get_mut(id);
                }
                count += 1;
            }
            id += 1;
        }
        None
    }
}

/// The numbers below `k` under which `m` holds a value, in increasing order.
pub open spec fn ids_below<V>(m: Map<usize, V>, k: nat) -> Seq<usize>
    decreases k,
{
    if k == 0 {
        Seq::empty()
    } else {
        let rest = ids_below(m, (k - 1) as nat);
        if m.contains_key((k - 1) as usize) {
            rest.push((k - 1) as usize)
        } else {
            rest
        }
    }
}

/// The numbers below `a` come first among those below `b`.
proof fn lemma_ids_below_prefix<V>(m: Map<usize, V>, a: nat, b: nat)
    requires
        a <= b,
    ensures
        ids_below(m, a).len() <= ids_below(m, b).len(),
        forall|i: int| 0 <= i < ids_below(m, a).len() ==> #[trigger] ids_below(m, b)[i] == ids_below(m, a)[i],
    decreases b,
{
    if a < b {
        lemma_ids_below_prefix(m, a, (b - 1) as nat);
    }
}

/// The value under `key` in `m`, to change in place, by `BTreeMap::get_mut`: trusted to find
/// exactly the keys of the map, to hand out the value stored there, and to leave the map with
/// whatever the caller puts through the reference under that key and the other entries as
/// they were.
#[verifier::external_body]
fn map_get_mut<V>(m: &mut BTreeMap<usize, V>, key: usize) -> (r: Option<&mut V>)
    ensures
        match r {
            Some(v) => {
                &&& old(m)@.contains_key(key)
                &&& *v == old(m)@[key]
                &&& final(m)@ == old(m)@.insert(key, *final(v))
            },
            None => !old(m)@.contains_key(key) && final(m)@ == old(m)@,
        },
{
    m.get_mut(&key)
}

/// A number given back is the next one handed out, and handing it out leaves the allocator as
/// it was before the number came back.
pub proof fn lemma_alloc_after_dealloc(a0: IDAllocator, a1: IDAllocator, a2: IDAllocator, id: usize, r: usize)
    requires
        a1.recycled() == a0.recycled().push(id),
        a1.next() == a0.next(),
        hands_out(a1, a2, r),
    ensures
        r == id,
        a2.recycled() == a0.recycled(),
        a2.next() == a0.next(),
{
    assert(a1.recycled().drop_last() =~= a0.recycled());
}

} // verus!
