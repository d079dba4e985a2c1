//! Direct-mapped cache for the results of recursive operations.

use vstd::prelude::*;

verus! {

/// What an operation and its operands are looked up by.
pub trait CacheKey: Sized + Copy {
    /// The number that selects the slot of this key.
    spec fn slot_number(&self) -> u64;

    /// Computes [`CacheKey::slot_number`].
    fn hash(&self) -> (h: u64)
        ensures
            h == self.slot_number(),
    ;

    /// Returns whether both keys are the same.
    fn same(&self, other: &Self) -> (b: bool)
        ensures
            b == (*self == *other),
    ;
}

/// Both keys belong to the same of `n` slots.
pub open spec fn share_slot<K: CacheKey>(a: K, b: K, n: nat) -> bool {
    a.slot_number() as int % n as int == b.slot_number() as int % n as int
}

/// Keys share a slot exactly if their numbers leave the same remainder.
pub proof fn law_share_slot<K: CacheKey>(a: K, b: K, n: nat)
    requires
        n > 0,
    ensures
        share_slot(a, b, n) <==> (a.slot_number() as int - b.slot_number() as int) % n as int == 0,
        share_slot(a, a, n),
{
    vstd::arithmetic::div_mod::lemma_mod_equivalence(
        a.slot_number() as int,
        b.slot_number() as int,
        n as int,
    );
}

/// A map that forgets: every key has one slot, and a slot keeps the entry added last.
pub struct ApplyCache<K: CacheKey, V: Copy> {
    slots: Vec<Option<(K, V)>>,
}

impl<K: CacheKey, V: Copy> ApplyCache<K, V> {
    /// The entry of the slot that `key` belongs to.
    closed spec fn slot(&self, key: K) -> Option<(K, V)> {
        self.slots@[key.slot_number() as int % self.slots@.len() as int]
    }

    /// The cache has at least one slot.
    pub closed spec fn wf(&self) -> bool {
        self.slots@.len() > 0
    }

    /// The number of slots.
    pub closed spec fn num_slots(&self) -> nat {
        self.slots@.len()
    }
}

impl<K: CacheKey, V: Copy> View for ApplyCache<K, V> {
    type V = Map<K, V>;

    closed spec fn view(&self) -> Map<K, V> {
        Map::new(
            |k: K| self.slot(k) is Some && (self.slot(k)->0).0 == k,
            |k: K| (self.slot(k)->0).1,
        )
    }
}

impl<K: CacheKey, V: Copy> ApplyCache<K, V> {
    /// An empty cache with `size` slots, or with one slot if `size` is 0.
    pub fn new(size: usize) -> (cache: Self)
        ensures
            cache.wf(),
            cache.num_slots() == if size == 0 { 1 } else { size as nat },
            cache@ == Map::<K, V>::empty(),
    {
        let n: usize = if size == 0 { 1 } else { size };
        let mut slots: Vec<Option<(K, V)>> = Vec::new();
        let mut i: usize = 0;
        while i < n
            invariant
                i <= n,
                slots@.len() == i,
                forall|j: int| 0 <= j < i ==> #[trigger] slots@[j] is None,
            decreases n - i,
        {
            slots.push(None);
            i = i + 1;
        }
        let cache = ApplyCache { slots };
        assert forall|k: K| cache.slot(k) is None by {
            let j: int = k.slot_number() as int % cache.slots@.len() as int;
            assert(cache.slots@[j] is None);
        }
        assert(cache@ =~= Map::<K, V>::empty());
        cache
    }

    /// The result stored for `key`, if it is still there.
    pub fn get(&self, key: K) -> (r: Option<V>)
        requires
            self.wf(),
        ensures
            r == if self@.contains_key(key) {
                Some(self@[key])
            } else {
                None
            },
    {
        let n: u64 = self.slots.len() as u64;
        let i: usize = (key.hash() % n) as usize;
        match self.slots[i] {
            Some((k, v)) => if k.same(&key) {
                Some(v)
            } else {
                None
            },
            None => None,
        }
    }

    /// Stores `value` for `key`; what the slot held for another key is forgotten.
    pub fn add_entry(&mut self, key: K, value: V)
        requires
            old(self).wf(),
        ensures
            final(self).wf(),
            final(self).num_slots() == old(self).num_slots(),
            final(self)@.contains_key(key),
            final(self)@[key] == value,
            forall|k: K|
                k != key ==> (#[trigger] final(self)@.contains_key(k) <==> old(self)@.contains_key(
                    k,
                ) && !share_slot(k, key, old(self).num_slots())),
            forall|k: K|
                k != key && #[trigger] final(self)@.contains_key(k) ==> final(self)@[k] == old(
                    self,
                )@[k],
    {
        let n: u64 = self.slots.len() as u64;
        let i: usize = (key.hash() % n) as usize;
        self.slots.set(i, Some((key, value)));
    }
}

} // verus!
