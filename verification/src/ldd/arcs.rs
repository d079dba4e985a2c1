//! Search in the arcs of a node: pairs of a value and its continuation, sorted by value.

use std::cmp::Ordering;
use vstd::laws_cmp::obeys_cmp;
use vstd::prelude::*;
use vstd::std_specs::cmp::{OrdSpec, PartialEqSpec, PartialOrdSpec};

verus! {

/// The value of the arc at `i`.
pub open spec fn value_at<V, E>(arcs: Seq<(V, E)>, i: usize) -> V {
    arcs[i as int].0
}

/// The arcs are sorted by value. A value may occur more than once.
pub open spec fn ascending<V: Ord, E>(arcs: Seq<(V, E)>) -> bool {
    forall|i: int, j: int|
        0 <= i < j < arcs.len() ==> (#[trigger] arcs[i]).0.cmp_spec(&(#[trigger] arcs[j]).0)
            != Ordering::Greater
}

/// The arcs before `pos` have smaller values than `value`.
pub open spec fn smaller_before<V: Ord, E>(arcs: Seq<(V, E)>, pos: usize, value: V) -> bool {
    forall|i: int| 0 <= i < pos ==> (#[trigger] arcs[i]).0.cmp_spec(&value) == Ordering::Less
}

/// The arcs at `pos` and after have greater values than `value`.
pub open spec fn greater_from<V: Ord, E>(arcs: Seq<(V, E)>, pos: usize, value: V) -> bool {
    forall|i: int|
        pos <= i < arcs.len() ==> (#[trigger] arcs[i]).0.cmp_spec(&value) == Ordering::Greater
}

/// Arcs can be searched exactly if none has a greater value than one that follows.
pub proof fn law_ascending<V: Ord, E>(arcs: Seq<(V, E)>)
    ensures
        ascending(arcs) <==> forall|i: int, j: int|
            0 <= i < j < arcs.len() ==> (#[trigger] arcs[i]).0.cmp_spec(&(#[trigger] arcs[j]).0)
                != Ordering::Greater,
{
}

/// What is not greater than a smaller value is smaller, and what is not smaller than a greater value
/// is greater.
proof fn lemma_order<V: Ord>(x: V, y: V, z: V)
    requires
        obeys_cmp::<V>(),
    ensures
        x.cmp_spec(&y) != Ordering::Greater && y.cmp_spec(&z) == Ordering::Less ==> x.cmp_spec(&z)
            == Ordering::Less,
        y.cmp_spec(&x) != Ordering::Greater && y.cmp_spec(&z) == Ordering::Greater ==> x.cmp_spec(
            &z,
        ) == Ordering::Greater,
{
    reveal(vstd::laws_cmp::obeys_partial_cmp_spec_properties);
    reveal(vstd::laws_cmp::obeys_cmp_partial_ord);
    reveal(vstd::laws_eq::obeys_eq_spec_properties);
    reveal(vstd::laws_cmp::obeys_cmp_ord);
    assert(x.partial_cmp_spec(&y) == Some(x.cmp_spec(&y)));
    assert(y.partial_cmp_spec(&x) == Some(y.cmp_spec(&x)));
    assert(y.partial_cmp_spec(&z) == Some(y.cmp_spec(&z)));
    assert(x.partial_cmp_spec(&z) == Some(x.cmp_spec(&z)));
    assert(z.partial_cmp_spec(&x) == Some(z.cmp_spec(&x)));
    assert(z.partial_cmp_spec(&y) == Some(z.cmp_spec(&y)));
    assert(x.eq_spec(&y) == y.eq_spec(&x));
    assert(y.eq_spec(&x) && x.eq_spec(&z) ==> y.eq_spec(&z));
}

/// Searches the arcs for `value`: `Ok` with its position, or `Err` with the position at which an
/// arc for `value` can be inserted such that the arcs stay sorted.
pub fn search_arc<V: Ord, E>(arcs: &[(V, E)], value: &V) -> (r: Result<usize, usize>)
    requires
        obeys_cmp::<V>(),
        ascending(arcs@),
    ensures
        match r {
            Ok(pos) => pos < arcs@.len() && value_at(arcs@, pos).cmp_spec(value)
                == Ordering::Equal,
            Err(pos) => pos <= arcs@.len() && smaller_before(arcs@, pos, *value) && greater_from(
                arcs@,
                pos,
                *value,
            ),
        },
        match r {
            Ok(pos) => forall|i: int|
                i == pos ==> (#[trigger] arcs@[i]).0.cmp_spec(value) == Ordering::Equal,
            Err(pos) => {
                &&& forall|i: int|
                    0 <= i < pos ==> (#[trigger] arcs@[i]).0.cmp_spec(value) == Ordering::Less
                &&& forall|i: int|
                    pos <= i < arcs@.len() ==> (#[trigger] arcs@[i]).0.cmp_spec(value)
                        == Ordering::Greater
            },
        },
{
    let mut low: usize = 0;
    let mut high: usize = arcs.len();
    while low < high
        invariant
            low <= high <= arcs@.len(),
            obeys_cmp::<V>(),
            ascending(arcs@),
            smaller_before(arcs@, low, *value),
            greater_from(arcs@, high, *value),
        decreases high - low,
    {
        let mid: usize = low + (high - low) / 2;
        let order = arcs[mid].0.cmp(value);
        proof {
            reveal(vstd::laws_cmp::obeys_cmp_ord);
            let m = value_at(arcs@, mid);
            assert forall|i: int| 0 <= i < arcs@.len() implies (i < mid && m.cmp_spec(value)
                == Ordering::Less ==> (#[trigger] arcs@[i]).0.cmp_spec(value) == Ordering::Less)
                && (i > mid && m.cmp_spec(value) == Ordering::Greater ==> arcs@[i].0.cmp_spec(value)
                == Ordering::Greater) by {
                lemma_order(arcs@[i].0, m, *value);
            }
        }
        match order {
            Ordering::Less => {
                low = mid + 1;
            },
            Ordering::Equal => {
                return Ok(mid);
            },
            Ordering::Greater => {
                high = mid;
            },
        }
    }
    Err(low)
}

/// Returns the position of `value` in `arcs`.
pub fn find_arc<V: Ord, E>(arcs: &[(V, E)], value: &V) -> (r: Option<usize>)
    requires
        obeys_cmp::<V>(),
        ascending(arcs@),
    ensures
        match r {
            Some(pos) => pos < arcs@.len() && value_at(arcs@, pos).cmp_spec(value)
                == Ordering::Equal,
            None => forall|i: int|
                0 <= i < arcs@.len() ==> (#[trigger] arcs@[i]).0.cmp_spec(value)
                    != Ordering::Equal,
        },
        r matches Some(pos) ==> forall|i: int|
            i == pos ==> (#[trigger] arcs@[i]).0.cmp_spec(value) == Ordering::Equal,
{
    match search_arc(arcs, value) {
        Ok(pos) => Some(pos),
        Err(_) => None,
    }
}

} // verus!
