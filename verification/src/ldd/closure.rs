//! The smallest superset of a set that is closed under a relation.

use vstd::prelude::*;

verus! {

/// Whatever is related to an element of `s` is in `s`.
pub open spec fn closed<T>(rel: spec_fn(T, T) -> bool, s: Set<T>) -> bool {
    forall|x: T, y: T| s.contains(x) && #[trigger] rel(x, y) ==> s.contains(y)
}

/// `t` is a superset of `s` that is closed under `rel`.
pub open spec fn closed_superset<T>(rel: spec_fn(T, T) -> bool, s: Set<T>, t: Set<T>) -> bool {
    s.subset_of(t) && closed(rel, t)
}

/// The smallest superset of `s` that is closed under `rel`.
pub open spec fn closure<T>(rel: spec_fn(T, T) -> bool, s: Set<T>) -> Set<T> {
    Set::new(|y: T| forall|t: Set<T>| #[trigger] closed_superset(rel, s, t) ==> t.contains(y))
}

/// The closure is a superset, and it is closed.
pub proof fn lemma_closure_closed<T>(rel: spec_fn(T, T) -> bool, s: Set<T>)
    ensures
        closed_superset(rel, s, closure(rel, s)),
{
    let c = closure(rel, s);
    assert forall|x: T, y: T| c.contains(x) && #[trigger] rel(x, y) implies c.contains(y) by {
        assert forall|t: Set<T>| #[trigger] closed_superset(rel, s, t) implies t.contains(y) by {
            assert(t.contains(x));
        }
    }
}

/// No closed superset is smaller.
pub proof fn lemma_closure_least<T>(rel: spec_fn(T, T) -> bool, s: Set<T>, t: Set<T>)
    requires
        s.subset_of(t),
        closed(rel, t),
    ensures
        closure(rel, s).subset_of(t),
{
    assert(closed_superset(rel, s, t));
}

/// A closed set is its own closure.
pub proof fn lemma_closure_fixed<T>(rel: spec_fn(T, T) -> bool, s: Set<T>)
    requires
        closed(rel, s),
    ensures
        closure(rel, s) == s,
{
    lemma_closure_closed(rel, s);
    lemma_closure_least(rel, s, s);
    assert(closure(rel, s) =~= s);
}

/// A larger set has a larger closure.
pub proof fn lemma_closure_monotone<T>(rel: spec_fn(T, T) -> bool, s: Set<T>, t: Set<T>)
    requires
        s.subset_of(t),
    ensures
        closure(rel, s).subset_of(closure(rel, t)),
{
    lemma_closure_closed(rel, t);
    lemma_closure_least(rel, s, closure(rel, t));
}

/// The closure distributes over unions.
pub proof fn lemma_closure_union<T>(rel: spec_fn(T, T) -> bool, s: Set<T>, t: Set<T>)
    ensures
        closure(rel, s.union(t)) == closure(rel, s).union(closure(rel, t)),
{
    let u = closure(rel, s).union(closure(rel, t));
    lemma_closure_closed(rel, s);
    lemma_closure_closed(rel, t);
    lemma_closure_least(rel, s.union(t), u);
    lemma_closure_monotone(rel, s, s.union(t));
    lemma_closure_monotone(rel, t, s.union(t));
    assert(closure(rel, s.union(t)) =~= u);
}

/// Closing under a part of a relation first makes no difference.
pub proof fn lemma_closure_absorbs<T>(
    part: spec_fn(T, T) -> bool,
    rel: spec_fn(T, T) -> bool,
    s: Set<T>,
)
    requires
        forall|x: T, y: T| #[trigger] part(x, y) ==> rel(x, y),
    ensures
        closure(rel, closure(part, s)) == closure(rel, s),
{
    let c = closure(rel, s);
    lemma_closure_closed(rel, s);
    lemma_closure_least(part, s, c);
    lemma_closure_least(rel, closure(part, s), c);
    lemma_closure_closed(part, s);
    lemma_closure_monotone(rel, s, closure(part, s));
    assert(closure(rel, closure(part, s)) =~= c);
}

} // verus!
