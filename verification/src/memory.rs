//! Pooled storage for orders and a flat price lookup table.

use vstd::prelude::*;

use crate::types::Order;

verus! {

/// A fixed-capacity pool of order records. Handles are small indices; a slot
/// is free exactly when it holds no order, and the free list names each free
/// slot exactly once.
pub struct OrderPool {
    pool: Vec<Option<Order>>,
    free_indices: Vec<usize>,
}

impl OrderPool {
    /// The slots, in handle order: `None` marks a free slot.
    pub closed spec fn slots(&self) -> Seq<Option<Order>> {
        self.pool@
    }

    /// The free list, oldest entry first; `allocate` pops from its tail.
    pub closed spec fn free_list(&self) -> Seq<usize> {
        self.free_indices@
    }

    pub closed spec fn wf(&self) -> bool {
        &&& forall|k: int|
            0 <= k < self.free_indices@.len() ==> (#[trigger] self.free_indices@[k]) < self.pool@.len()
                && self.pool@[self.free_indices@[k] as int] is None
        &&& forall|k1: int, k2: int|
            0 <= k1 < k2 < self.free_indices@.len() ==> self.free_indices@[k1]
                != self.free_indices@[k2]
        &&& forall|h: usize|
            h < self.pool@.len() && self.pool@[h as int] is None ==> self.free_indices@.contains(
                h,
            )
    }

    pub fn new(capacity: usize) -> (r: Self)
        ensures
            r.wf(),
            r.slots().len() == capacity,
            forall|h: int| 0 <= h < capacity ==> r.slots()[h] is None,
            r.free_list().len() == capacity,
    {
        let mut pool: Vec<Option<Order>> = Vec::with_capacity(capacity);
        for _i in 0..capacity
            invariant
                pool@.len() == _i,
                forall|h: int| 0 <= h < _i ==> pool@[h] is None,
        {
            pool.push(None);
        }

        let mut free_indices: Vec<usize> = Vec::with_capacity(capacity);
        let mut i: usize = capacity;
        while i > 0
            invariant
                i <= capacity,
                free_indices@.len() == capacity - i,
                forall|k: int|
                    0 <= k < free_indices@.len() ==> (#[trigger] free_indices@[k]) as int == capacity
                        - 1 - k,
            decreases i,
        {
            i = i - 1;
            free_indices.push(i);
        }

        let r = OrderPool { pool, free_indices };
        proof {
            assert forall|h: usize| h < r.pool@.len() && r.pool@[h as int] is None implies r
                .free_indices@.contains(h) by {
                assert(r.free_indices@[capacity - 1 - h] == h);
            }
        }
        r
    }

    /// Store `order` in a free slot and hand back its handle; `None` exactly
    /// when the pool is exhausted.
    pub fn allocate(&mut self, order: Order) -> (r: Option<usize>)
        requires
            old(self).wf(),
        ensures
            final(self).wf(),
            old(self).free_list().len() == 0 ==> r is None && final(self).slots() == old(self).slots()
                && final(self).free_list() == old(self).free_list(),
            old(self).free_list().len() > 0 ==> {
                let h = old(self).free_list().last();
                &&& r == Some(h)
                &&& h < old(self).slots().len()
                &&& old(self).slots()[h as int] is None
                &&& final(self).slots() == old(self).slots().update(h as int, Some(order))
                &&& final(self).free_list() == old(self).free_list().drop_last()
            },
    {
        let popped = self.free_indices.pop();
        match popped {
            Some(index) => {
                self.pool.set(index, Some(order));
                proof {
                    assert(old(self).free_indices@.last() == index);
                    assert forall|h2: usize|
                        h2 < self.pool@.len() && self.pool@[h2 as int] is None implies self
                        .free_indices@.contains(h2) by {
                        assert(h2 != index);
                        assert(old(self).free_indices@.contains(h2));
                        let k = choose|k: int|
                            0 <= k < old(self).free_indices@.len() && old(self).free_indices@[k]
                                == h2;
                        assert(k != old(self).free_indices@.len() - 1);
                        assert(self.free_indices@[k] == h2);
                    }
                }
                Some(index)
            },
            None => None,
        }
    }

    /// Return a handle to the free list and clear its slot.
    pub fn deallocate(&mut self, index: usize)
        requires
            old(self).wf(),
            index < old(self).slots().len(),
            old(self).slots()[index as int] is Some,
        ensures
            final(self).wf(),
            old(self).free_list().len() < old(self).slots().len(),
            final(self).slots() == old(self).slots().update(index as int, None::<Order>),
            final(self).free_list() == old(self).free_list().push(index),
    {
        proof {
            // The occupied slot `index` is not on the free list, so the free
            // list together with `index` still names distinct slots, and a
            // set of distinct slot numbers cannot outgrow the pool.
            assert(!old(self).free_indices@.contains(index));
            let padded = old(self).free_indices@.push(index);
            assert forall|k1: int, k2: int| 0 <= k1 < k2 < padded.len() implies padded[k1]
                != padded[k2] by {
                if k2 == padded.len() - 1 {
                    assert(padded[k1] == old(self).free_indices@[k1]);
                }
            }
            assert(forall|k: int|
                0 <= k < padded.len() ==> (#[trigger] padded[k]) < old(self).pool@.len());
            lemma_distinct_bounded_shorter(padded, old(self).pool@.len() as int);
        }
        self.pool.set(index, None);
        self.free_indices.push(index);
        proof {
            assert forall|h2: usize|
                h2 < self.pool@.len() && self.pool@[h2 as int] is None implies self
                .free_indices@.contains(h2) by {
                if h2 == index {
                    assert(self.free_indices@.last() == index);
                } else {
                    assert(old(self).free_indices@.contains(h2));
                    let k = choose|k: int|
                        0 <= k < old(self).free_indices@.len() && old(self).free_indices@[k] == h2;
                    assert(self.free_indices@[k] == h2);
                }
            }
        }
    }

    /// Read the order stored at an occupied slot.
    pub fn get(&self, index: usize) -> (r: &Order)
        requires
            self.wf(),
            index < self.slots().len(),
            self.slots()[index as int] is Some,
        ensures
            *r == self.slots()[index as int]->Some_0,
    {
        match &self.pool[index] {
            Some(order) => order,
            None => unreached(),
        }
    }

    /// Overwrite the quantity of the order stored at an occupied slot.
    pub fn set_quantity(&mut self, index: usize, quantity: u64)
        requires
            old(self).wf(),
            index < old(self).slots().len(),
            old(self).slots()[index as int] is Some,
        ensures
            final(self).wf(),
            final(self).slots() == old(self).slots().update(
                index as int,
                Some(Order { quantity, ..old(self).slots()[index as int]->Some_0 }),
            ),
            final(self).free_list() == old(self).free_list(),
    {
        let mut order = self.pool[index];
        match &mut order {
            Some(o) => {
                o.quantity = quantity;
            },
            None => {
                proof {
                    assert(false);
                }
            },
        }
        self.pool.set(index, order);
    }

    pub fn available_capacity(&self) -> (r: usize)
        ensures
            r == self.free_list().len(),
    {
        self.free_indices.len()
    }

    pub fn total_capacity(&self) -> (r: usize)
        ensures
            r == self.slots().len(),
    {
        self.pool.len()
    }
}

/// A sequence of distinct indices, each below `n`, has at most `n` entries.
proof fn lemma_distinct_bounded_shorter(s: Seq<usize>, n: int)
    requires
        n >= 0,
        forall|k: int| 0 <= k < s.len() ==> (#[trigger] s[k]) < n,
        forall|k1: int, k2: int| 0 <= k1 < k2 < s.len() ==> s[k1] != s[k2],
    ensures
        s.len() <= n,
    decreases n,
{
    if s.len() > n {
        assert(n >= 1) by {
            assert(s[0] < n);
        }
        // Remove every occurrence of the value n - 1 (there is at most one)
        // and recurse with bound n - 1.
        if exists|k: int| 0 <= k < s.len() && (#[trigger] s[k]) as int == n - 1 {
            let k = choose|k: int| 0 <= k < s.len() && (#[trigger] s[k]) as int == n - 1;
            let t = s.remove(k);
            assert forall|j: int| 0 <= j < t.len() implies (#[trigger] t[j]) < n - 1 by {
                if j < k {
                    assert(t[j] == s[j]);
                    assert(s[j] != s[k]);
                } else {
                    assert(t[j] == s[j + 1]);
                    assert(s[j + 1] != s[k]);
                }
            }
            assert forall|j1: int, j2: int| 0 <= j1 < j2 < t.len() implies t[j1] != t[j2] by {
                if j2 < k {
                } else if j1 < k {
                    assert(t[j1] == s[j1] && t[j2] == s[j2 + 1]);
                } else {
                    assert(t[j1] == s[j1 + 1] && t[j2] == s[j2 + 1]);
                }
            }
            lemma_distinct_bounded_shorter(t, n - 1);
        } else {
            assert(forall|k: int| 0 <= k < s.len() ==> (#[trigger] s[k]) < n - 1);
            lemma_distinct_bounded_shorter(s, n - 1);
        }
    }
}

/// A flat price-to-index lookup table: parallel arrays of prices and payload
/// indices, scanned linearly and compacted by swap-removal.
pub struct PriceLookupTable {
    prices: Vec<u64>,
    indices: Vec<u32>,
    size: usize,
}

/// The position of the first entry holding `price`, if any.
pub open spec fn find_entry(entries: Seq<(u64, u32)>, price: u64) -> Option<int>
    decreases entries.len(),
{
    if entries.len() == 0 {
        None
    } else if entries[0].0 == price {
        Some(0int)
    } else {
        match find_entry(entries.drop_first(), price) {
            Some(p) => Some(p + 1),
            None => None,
        }
    }
}

impl PriceLookupTable {
    /// The table's entries as (price, index) pairs, in storage order.
    pub closed spec fn entries(&self) -> Seq<(u64, u32)> {
        Seq::new(self.prices@.len(), |i: int| (self.prices@[i], self.indices@[i]))
    }

    pub closed spec fn wf(&self) -> bool {
        self.size == self.prices@.len() && self.prices@.len() == self.indices@.len()
    }

    pub fn new(capacity: usize) -> (r: Self)
        ensures
            r.wf(),
            r.entries().len() == 0,
    {
        PriceLookupTable {
            prices: Vec::with_capacity(capacity),
            indices: Vec::with_capacity(capacity),
            size: 0,
        }
    }

    pub fn insert(&mut self, price: u64, index: u32)
        requires
            old(self).wf(),
            old(self).entries().len() < usize::MAX,
        ensures
            final(self).wf(),
            final(self).entries() =~= old(self).entries().push((price, index)),
    {
        self.prices.push(price);
        self.indices.push(index);
        self.size = self.size + 1;
    }

    /// Look up the payload index stored with the first entry for `price`.
    pub fn find(&self, price: u64) -> (r: Option<u32>)
        requires
            self.wf(),
        ensures
            r == match find_entry(self.entries(), price) {
                Some(p) => Some(self.entries()[p].1),
                None => None::<u32>,
            },
    {
        proof {
            lemma_find_entry(self.entries(), price);
        }
        let n = self.prices.len();
        let mut i: usize = 0;
        while i < n && self.prices[i] != price
            invariant
                self.wf(),
                n == self.entries().len(),
                0 <= i <= n,
                forall|j: int| 0 <= j < i ==> self.entries()[j].0 != price,
            decreases n - i,
        {
            i = i + 1;
        }
        if i < n {
            proof {
                lemma_find_entry_pins(self.entries(), price, i as int);
            }
            Some(self.indices[i])
        } else {
            None
        }
    }

    /// Remove the first entry for `price`, swapping the last entry into its
    /// place; reports whether an entry was removed.
    pub fn remove(&mut self, price: u64) -> (r: bool)
        requires
            old(self).wf(),
        ensures
            final(self).wf(),
            r == find_entry(old(self).entries(), price) is Some,
            r ==> {
                let p = find_entry(old(self).entries(), price)->Some_0;
                final(self).entries() =~= old(self).entries().update(
                    p,
                    old(self).entries().last(),
                ).drop_last()
            },
            !r ==> final(self).entries() =~= old(self).entries(),
    {
        proof {
            lemma_find_entry(old(self).entries(), price);
        }
        let n = self.prices.len();
        let mut i: usize = 0;
        while i < n && self.prices[i] != price
            invariant
                self.wf(),
                self.prices@ == old(self).prices@,
                self.indices@ == old(self).indices@,
                self.size == old(self).size,
                n == self.entries().len(),
                0 <= i <= n,
                forall|j: int| 0 <= j < i ==> self.entries()[j].0 != price,
            decreases n - i,
        {
            i = i + 1;
        }
        if i < n {
            proof {
                assert(self.entries() =~= old(self).entries());
                lemma_find_entry_pins(old(self).entries(), price, i as int);
            }
            let last_price = self.prices[n - 1];
            let last_index = self.indices[n - 1];
            self.prices.set(i, last_price);
            self.indices.set(i, last_index);
            let _ = self.prices.pop();
            let _ = self.indices.pop();
            self.size = self.size - 1;
            true
        } else {
            false
        }
    }

    pub fn is_empty(&self) -> (r: bool)
        requires
            self.wf(),
        ensures
            r == (self.entries().len() == 0),
    {
        self.size == 0
    }

    pub fn len(&self) -> (r: usize)
        requires
            self.wf(),
        ensures
            r == self.entries().len(),
    {
        self.size
    }
}

/// What `find_entry` returns: the first matching position, or a proof that
/// no entry matches.
pub proof fn lemma_find_entry(entries: Seq<(u64, u32)>, price: u64)
    ensures
        match find_entry(entries, price) {
            Some(p) => {
                &&& 0 <= p < entries.len()
                &&& entries[p].0 == price
                &&& forall|j: int| 0 <= j < p ==> entries[j].0 != price
            },
            None => forall|j: int| 0 <= j < entries.len() ==> entries[j].0 != price,
        },
    decreases entries.len(),
{
    if entries.len() == 0 {
    } else if entries[0].0 == price {
    } else {
        let tail = entries.drop_first();
        lemma_find_entry(tail, price);
        assert(forall|j: int| 0 <= j < tail.len() ==> tail[j] == entries[j + 1]);
        if find_entry(tail, price) is Some {
            let p = find_entry(tail, price)->Some_0;
            assert(entries[p + 1].0 == price);
            assert forall|j: int| 0 <= j < p + 1 implies entries[j].0 != price by {
                if j > 0 {
                    assert(tail[j - 1] == entries[j]);
                }
            }
        } else {
            assert forall|j: int| 0 <= j < entries.len() implies entries[j].0 != price by {
                if j > 0 {
                    assert(tail[j - 1] == entries[j]);
                }
            }
        }
    }
}

/// If position `i` holds the first entry for `price`, then `find_entry`
/// returns exactly `i`.
proof fn lemma_find_entry_pins(entries: Seq<(u64, u32)>, price: u64, i: int)
    requires
        0 <= i < entries.len(),
        entries[i].0 == price,
        forall|j: int| 0 <= j < i ==> entries[j].0 != price,
    ensures
        find_entry(entries, price) == Some(i),
{
    lemma_find_entry(entries, price);
    if find_entry(entries, price) is None {
        assert(false);
    } else {
        let p = find_entry(entries, price)->Some_0;
        if p < i {
            assert(entries[p].0 != price);
            assert(false);
        }
        if p > i {
            assert(entries[i].0 != price);
            assert(false);
        }
    }
}

} // verus!
