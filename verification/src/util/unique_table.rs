//! Hash table that maps the contents of a node to the number of that node.

use std::collections::HashMap;
use vstd::prelude::*;

verus! {

/// One past the largest `u32`, as the base in which three `u32`s are written as one number.
pub const WORD: u128 = 0x1_0000_0000;

/// The number whose digits in base [`WORD`] are `a`, `b` and `c`.
pub open spec fn packed(a: u32, b: u32, c: u32) -> int {
    (a * WORD + b) * WORD + c
}

/// Distinct triples are packed into distinct numbers.
proof fn lemma_packed_injective(a: u32, b: u32, c: u32, x: u32, y: u32, z: u32)
    requires
        packed(a, b, c) == packed(x, y, z),
    ensures
        a == x,
        b == y,
        c == z,
{
    let p: int = a * WORD + b;
    let q: int = x * WORD + y;
    assert(p == q);
}

fn pack(a: u32, b: u32, c: u32) -> (key: u128)
    ensures
        key == packed(a, b, c),
{
    (a as u128 * WORD + b as u128) * WORD + c as u128
}

/// A finite map from triples of `u32`s to `u32`s.
pub struct UniqueTable {
    map: HashMap<u128, u32>,
}

impl View for UniqueTable {
    type V = Map<(u32, u32, u32), u32>;

    closed spec fn view(&self) -> Map<(u32, u32, u32), u32> {
        Map::new(
            |k: (u32, u32, u32)| self.map@.contains_key(packed(k.0, k.1, k.2) as u128),
            |k: (u32, u32, u32)| self.map@[packed(k.0, k.1, k.2) as u128],
        )
    }
}

impl UniqueTable {
    /// The table without entries.
    pub fn new() -> (table: Self)
        ensures
            table@ == Map::<(u32, u32, u32), u32>::empty(),
    {
        broadcast use vstd::std_specs::hash::group_hash_axioms;

        let table = UniqueTable { map: HashMap::new() };
        assert(table@ =~= Map::<(u32, u32, u32), u32>::empty());
        table
    }

    /// The number stored for `(a, b, c)`, if any.
    pub fn get(&self, a: u32, b: u32, c: u32) -> (id: Option<u32>)
        ensures
            id == if self@.contains_key((a, b, c)) {
                Some(self@[(a, b, c)])
            } else {
                None
            },
    {
        broadcast use vstd::std_specs::hash::group_hash_axioms;

        let key: u128 = pack(a, b, c);
        match self.map.get(&key) {
            Some(id) => Some(*id),
            None => None,
        }
    }

    /// Stores `id` for `(a, b, c)`, in place of the number stored there before.
    pub fn insert(&mut self, a: u32, b: u32, c: u32, id: u32)
        ensures
            final(self)@ == old(self)@.insert((a, b, c), id),
    {
        broadcast use vstd::std_specs::hash::group_hash_axioms;

        let key: u128 = pack(a, b, c);
        let _ = self.map.insert(key, id);
        proof {
            assert forall|k: (u32, u32, u32)| packed(k.0, k.1, k.2) == key implies k == (a, b, c) by {
                lemma_packed_injective(k.0, k.1, k.2, a, b, c);
            }
            assert forall|k: (u32, u32, u32)| 0 <= #[trigger] packed(k.0, k.1, k.2) <= u128::MAX by {}
            assert(self@ =~= old(self)@.insert((a, b, c), id));
        }
    }
}

} // verus!
