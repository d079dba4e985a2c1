//! The arcs of a node that is being saturated.

use super::arcs::{find_arc, search_arc, value_at};
use super::closure::lemma_closure_least;
use super::firing::{
    can_step, event_step, events_known, image, lemma_event_top, lemma_events_extends,
    lemma_saturated_prefixed, lemma_step_len, lemma_step_tail, meta_of, reachable, saturated,
    starts_above, step_rel, SaturationEvent,
};
use super::semantics::{
    cons, empty, extends, fits, is_ldd, lemma_cons, lemma_extends, lemma_uncons, prefixed, vectors,
    LDDEdge, LDDNode,
};
use vstd::laws_cmp::group_laws_cmp;
use vstd::prelude::*;
use vstd::slice::slice_subrange;

verus! {

/// The vectors that start with the value of an arc and go on with one of its continuations.
pub open spec fn arcs_vectors(nodes: Seq<LDDNode>, arcs: Seq<(u32, LDDEdge)>) -> Set<Seq<u32>> {
    Set::new(
        |x: Seq<u32>|
            exists|k: int|
                0 <= k < arcs.len() && prefixed(
                    (#[trigger] arcs[k]).0,
                    vectors(nodes, arcs[k].1),
                ).contains(x),
    )
}

/// The arc has continuations of the length `h`, which are closed under the events that start below
/// position `p`.
pub open spec fn arc_ok(
    nodes: Seq<LDDNode>,
    events: Seq<SaturationEvent>,
    p: int,
    h: nat,
    e: LDDEdge,
) -> bool {
    &&& e != empty()
    &&& fits(nodes, e, h)
    &&& saturated(nodes, events, p + 1, p + 1, vectors(nodes, e))
}

/// Every arc is fine.
pub open spec fn arcs_ok(
    nodes: Seq<LDDNode>,
    events: Seq<SaturationEvent>,
    p: int,
    h: nat,
    arcs: Seq<(u32, LDDEdge)>,
) -> bool {
    forall|k: int| 0 <= k < arcs.len() ==> arc_ok(nodes, events, p, h, (#[trigger] arcs[k]).1)
}

/// The arcs are sorted by value, and no value occurs twice.
pub open spec fn sorted(arcs: Seq<(u32, LDDEdge)>) -> bool {
    forall|i: int, j: int|
        0 <= i < j < arcs.len() ==> (#[trigger] arcs[i]).0 < (#[trigger] arcs[j]).0
}

/// Firing the events that start at position `p` out of the value `v` with the continuations `e` does
/// not leave `s`.
pub open spec fn successors_in(
    nodes: Seq<LDDNode>,
    events: Seq<SaturationEvent>,
    p: int,
    v: u32,
    e: LDDEdge,
    s: Set<Seq<u32>>,
) -> bool {
    forall|i: int|
        0 <= i < events.len() && (#[trigger] events[i]).top == p ==> image(
            prefixed(v, vectors(nodes, e)),
            vectors(nodes, events[i].relation),
            meta_of(nodes, events[i].meta_at_top),
        ).subset_of(s)
}

/// All vectors of the length `h`.
pub open spec fn universe(h: nat) -> Set<Seq<u32>> {
    Set::new(|x: Seq<u32>| x.len() == h)
}

/// The number of vectors of the length `h` that are not in `s`.
pub open spec fn missing(h: nat, s: Set<Seq<u32>>) -> nat {
    universe(h).difference(s).len()
}

/// The vectors of the length `h + 1` whose first component is less than `n`.
spec fn universe_below(h: nat, n: nat) -> Set<Seq<u32>> {
    Set::new(|x: Seq<u32>| x.len() == h + 1 && x[0] < n)
}

proof fn lemma_universe_below_finite(h: nat, n: nat)
    requires
        universe(h).finite(),
        n <= 0x1_0000_0000,
    ensures
        universe_below(h, n).finite(),
    decreases n,
{
    if n == 0 {
        assert(universe_below(h, n) =~= Set::<Seq<u32>>::empty());
    } else {
        let m = (n - 1) as nat;
        let v = m as u32;
        lemma_universe_below_finite(h, m);
        let f = |w: Seq<u32>| cons(v, w);
        let top = universe(h).map(f);
        universe(h).lemma_map_finite(f);
        assert forall|x: Seq<u32>| universe_below(h, n).contains(x) implies universe_below(
            h,
            m,
        ).union(top).contains(x) by {
            if x[0] == v {
                lemma_uncons(x);
                assert(universe(h).contains(x.drop_first()));
                assert(f(x.drop_first()) == x);
                assert(top.contains(x));
            }
        }
        assert forall|x: Seq<u32>| universe_below(h, m).union(top).contains(
            x,
        ) implies universe_below(h, n).contains(x) by {
            if top.contains(x) {
                let w = choose|w: Seq<u32>| universe(h).contains(w) && f(w) == x;
                lemma_cons(v, w);
            }
        }
        assert(universe_below(h, n) =~= universe_below(h, m).union(top));
    }
}

/// There are finitely many vectors of a length.
pub proof fn lemma_universe_finite(h: nat)
    ensures
        universe(h).finite(),
    decreases h,
{
    if h == 0 {
        assert forall|x: Seq<u32>| x.len() == 0 implies x == Seq::<u32>::empty() by {
            assert(x =~= Seq::<u32>::empty());
        }
        assert(universe(0) =~= Set::<Seq<u32>>::empty().insert(Seq::empty()));
    } else {
        let g = (h - 1) as nat;
        lemma_universe_finite(g);
        lemma_universe_below_finite(g, 0x1_0000_0000);
        assert(universe(h) =~= universe_below(g, 0x1_0000_0000));
    }
}

/// A set that grows misses fewer vectors.
pub proof fn lemma_missing(h: nat, s: Set<Seq<u32>>, t: Set<Seq<u32>>, x: Seq<u32>)
    requires
        s.subset_of(t),
        t.contains(x),
        !s.contains(x),
        x.len() == h,
    ensures
        missing(h, t) < missing(h, s),
{
    lemma_universe_finite(h);
    let a = universe(h).difference(s);
    let b = universe(h).difference(t);
    assert(a.contains(x) && !b.contains(x));
    assert(b.subset_of(a.remove(x)));
    assert(a.finite());
    vstd::set_lib::lemma_len_subset(b, a.remove(x));
}

/// Adding an arc adds its vectors.
pub proof fn lemma_arcs_push(
    nodes: Seq<LDDNode>,
    arcs: Seq<(u32, LDDEdge)>,
    v: u32,
    e: LDDEdge,
)
    ensures
        arcs_vectors(nodes, arcs.push((v, e))) == arcs_vectors(nodes, arcs).union(
            prefixed(v, vectors(nodes, e)),
        ),
{
    let b = arcs.push((v, e));
    let s = arcs_vectors(nodes, arcs).union(prefixed(v, vectors(nodes, e)));
    assert forall|x: Seq<u32>| s.contains(x) implies arcs_vectors(nodes, b).contains(x) by {
        if prefixed(v, vectors(nodes, e)).contains(x) {
            assert(b[arcs.len() as int] == (v, e));
        } else {
            let k: int = choose|k: int|
                0 <= k < arcs.len() && prefixed(
                    (#[trigger] arcs[k]).0,
                    vectors(nodes, arcs[k].1),
                ).contains(x);
            assert(b[k] == arcs[k]);
        }
    }
    assert forall|x: Seq<u32>| arcs_vectors(nodes, b).contains(x) implies s.contains(x) by {
        let k: int = choose|k: int|
            0 <= k < b.len() && prefixed((#[trigger] b[k]).0, vectors(nodes, b[k].1)).contains(x);
        if k < arcs.len() {
            assert(b[k] == arcs[k]);
        }
    }
    assert(arcs_vectors(nodes, b) =~= s);
}

/// Inserting an arc anywhere adds its vectors.
pub proof fn lemma_arcs_insert(
    nodes: Seq<LDDNode>,
    arcs: Seq<(u32, LDDEdge)>,
    pos: int,
    v: u32,
    e: LDDEdge,
)
    requires
        0 <= pos <= arcs.len(),
    ensures
        arcs_vectors(nodes, arcs.insert(pos, (v, e))) == arcs_vectors(nodes, arcs).union(
            prefixed(v, vectors(nodes, e)),
        ),
{
    let b = arcs.insert(pos, (v, e));
    let s = arcs_vectors(nodes, arcs).union(prefixed(v, vectors(nodes, e)));
    assert forall|x: Seq<u32>| s.contains(x) implies arcs_vectors(nodes, b).contains(x) by {
        if prefixed(v, vectors(nodes, e)).contains(x) {
            assert(b[pos] == (v, e));
        } else {
            let k: int = choose|k: int|
                0 <= k < arcs.len() && prefixed(
                    (#[trigger] arcs[k]).0,
                    vectors(nodes, arcs[k].1),
                ).contains(x);
            if k < pos {
                assert(b[k] == arcs[k]);
            } else {
                assert(b[k + 1] == arcs[k]);
            }
        }
    }
    assert forall|x: Seq<u32>| arcs_vectors(nodes, b).contains(x) implies s.contains(x) by {
        let k: int = choose|k: int|
            0 <= k < b.len() && prefixed((#[trigger] b[k]).0, vectors(nodes, b[k].1)).contains(x);
        if k < pos {
            assert(b[k] == arcs[k]);
        } else if k > pos {
            assert(b[k] == arcs[k - 1]);
        }
    }
    assert(arcs_vectors(nodes, b) =~= s);
}

/// Replacing the continuations of a value by a superset adds the new vectors.
pub proof fn lemma_arcs_update(
    nodes: Seq<LDDNode>,
    arcs: Seq<(u32, LDDEdge)>,
    pos: int,
    e: LDDEdge,
)
    requires
        0 <= pos < arcs.len(),
        vectors(nodes, arcs[pos].1).subset_of(vectors(nodes, e)),
    ensures
        arcs_vectors(nodes, arcs.update(pos, (arcs[pos].0, e))) == arcs_vectors(nodes, arcs).union(
            prefixed(arcs[pos].0, vectors(nodes, e)),
        ),
{
    let v = arcs[pos].0;
    let b = arcs.update(pos, (v, e));
    let s = arcs_vectors(nodes, arcs).union(prefixed(v, vectors(nodes, e)));
    assert forall|x: Seq<u32>| s.contains(x) implies arcs_vectors(nodes, b).contains(x) by {
        if prefixed(v, vectors(nodes, e)).contains(x) {
            assert(b[pos] == (v, e));
        } else {
            let k: int = choose|k: int|
                0 <= k < arcs.len() && prefixed(
                    (#[trigger] arcs[k]).0,
                    vectors(nodes, arcs[k].1),
                ).contains(x);
            assert(k != pos);
            assert(b[k] == arcs[k]);
        }
    }
    assert forall|x: Seq<u32>| arcs_vectors(nodes, b).contains(x) implies s.contains(x) by {
        let k: int = choose|k: int|
            0 <= k < b.len() && prefixed((#[trigger] b[k]).0, vectors(nodes, b[k].1)).contains(x);
        if k != pos {
            assert(b[k] == arcs[k]);
        }
    }
    assert(arcs_vectors(nodes, b) =~= s);
}

/// The vectors that start with the value of an arc are those of that arc.
pub proof fn lemma_arcs_tails(
    nodes: Seq<LDDNode>,
    arcs: Seq<(u32, LDDEdge)>,
    k: int,
    w: Seq<u32>,
)
    requires
        sorted(arcs),
        0 <= k < arcs.len(),
    ensures
        arcs_vectors(nodes, arcs).contains(cons(arcs[k].0, w)) == vectors(
            nodes,
            arcs[k].1,
        ).contains(w),
{
    let x = cons(arcs[k].0, w);
    lemma_cons(arcs[k].0, w);
    if vectors(nodes, arcs[k].1).contains(w) {
        assert(prefixed(arcs[k].0, vectors(nodes, arcs[k].1)).contains(x));
    }
    if arcs_vectors(nodes, arcs).contains(x) {
        let j: int = choose|j: int|
            0 <= j < arcs.len() && prefixed(
                (#[trigger] arcs[j]).0,
                vectors(nodes, arcs[j].1),
            ).contains(x);
        assert(arcs[j].0 == arcs[k].0);
        assert(j == k);
    }
}

/// Arcs keep their meaning when nodes are added.
pub proof fn lemma_arcs_extends(
    a: Seq<LDDNode>,
    b: Seq<LDDNode>,
    events: Seq<SaturationEvent>,
    p: int,
    h: nat,
    arcs: Seq<(u32, LDDEdge)>,
)
    requires
        is_ldd(a),
        extends(a, b),
        events_known(a, events),
        arcs_ok(a, events, p, h, arcs),
    ensures
        arcs_ok(b, events, p, h, arcs),
        arcs_vectors(b, arcs) == arcs_vectors(a, arcs),
{
    lemma_extends(a, b);
    lemma_events_extends(a, b, events);
    assert(step_rel(b, events, p + 1, p + 1) == step_rel(a, events, p + 1, p + 1));
    assert forall|k: int| 0 <= k < arcs.len() implies arc_ok(
        b,
        events,
        p,
        h,
        (#[trigger] arcs[k]).1,
    ) && vectors(b, arcs[k].1) == vectors(a, arcs[k].1) by {
        assert(arc_ok(a, events, p, h, arcs[k].1));
    }
    assert(arcs_vectors(b, arcs) =~= arcs_vectors(a, arcs)) by {
        assert forall|x: Seq<u32>|
            arcs_vectors(b, arcs).contains(x) == arcs_vectors(a, arcs).contains(x) by {
            if arcs_vectors(b, arcs).contains(x) {
                let k: int = choose|k: int|
                    0 <= k < arcs.len() && prefixed(
                        (#[trigger] arcs[k]).0,
                        vectors(b, arcs[k].1),
                    ).contains(x);
                assert(prefixed(arcs[k].0, vectors(a, arcs[k].1)).contains(x));
            }
            if arcs_vectors(a, arcs).contains(x) {
                let k: int = choose|k: int|
                    0 <= k < arcs.len() && prefixed(
                        (#[trigger] arcs[k]).0,
                        vectors(a, arcs[k].1),
                    ).contains(x);
                assert(prefixed(arcs[k].0, vectors(b, arcs[k].1)).contains(x));
            }
        }
    }
}

/// Arcs are closed under all events if no event that starts at their position leads out of them.
pub proof fn lemma_arcs_saturated(
    nodes: Seq<LDDNode>,
    events: Seq<SaturationEvent>,
    p: int,
    h: nat,
    arcs: Seq<(u32, LDDEdge)>,
)
    requires
        arcs_ok(nodes, events, p, h, arcs),
        forall|k: int|
            0 <= k < arcs.len() ==> successors_in(
                nodes,
                events,
                p,
                (#[trigger] arcs[k]).0,
                arcs[k].1,
                arcs_vectors(nodes, arcs),
            ),
    ensures
        saturated(nodes, events, p, p, arcs_vectors(nodes, arcs)),
{
    let s = arcs_vectors(nodes, arcs);
    let rel = step_rel(nodes, events, p, p);
    assert forall|x: Seq<u32>, y: Seq<u32>| s.contains(x) && #[trigger] rel(x, y) implies s.contains(
        y,
    ) by {
        let k: int = choose|k: int|
            0 <= k < arcs.len() && prefixed(
                (#[trigger] arcs[k]).0,
                vectors(nodes, arcs[k].1),
            ).contains(x);
        let a = prefixed(arcs[k].0, vectors(nodes, arcs[k].1));
        let i: int = choose|i: int|
            0 <= i < events.len() && events[i].top >= p && #[trigger] event_step(
                nodes,
                events[i],
                p,
                x,
                y,
            );
        if events[i].top == p {
            lemma_event_top(nodes, events[i], p, x, y, a);
            assert(successors_in(nodes, events, p, arcs[k].0, arcs[k].1, s));
        } else {
            assert(arc_ok(nodes, events, p, h, arcs[k].1));
            lemma_saturated_prefixed(nodes, events, p, arcs[k].0, vectors(nodes, arcs[k].1));
            assert(can_step(nodes, events, p + 1, p, x, y));
            assert(step_rel(nodes, events, p + 1, p)(x, y));
            assert(a.contains(y));
        }
    }
}

/// Events that start below position `p` keep the first component greater than `v`.
pub proof fn lemma_reachable_above(
    nodes: Seq<LDDNode>,
    events: Seq<SaturationEvent>,
    p: int,
    s: Set<Seq<u32>>,
    v: u32,
)
    requires
        starts_above(s, v),
    ensures
        starts_above(reachable(nodes, events, p + 1, p, s), v),
{
    let t = Set::new(|x: Seq<u32>| x.len() > 0 && x[0] > v);
    let rel = step_rel(nodes, events, p + 1, p);
    assert forall|x: Seq<u32>, y: Seq<u32>| t.contains(x) && #[trigger] rel(x, y) implies t.contains(
        y,
    ) by {
        lemma_step_tail(nodes, events, p, x, y);
    }
    lemma_closure_least(rel, s, t);
}

/// Events keep the length of vectors.
pub proof fn lemma_reachable_len(
    nodes: Seq<LDDNode>,
    events: Seq<SaturationEvent>,
    t: int,
    p: int,
    s: Set<Seq<u32>>,
    h: nat,
)
    requires
        forall|x: Seq<u32>| #[trigger] s.contains(x) ==> x.len() == h,
    ensures
        forall|x: Seq<u32>| #[trigger]
            reachable(nodes, events, t, p, s).contains(x) ==> x.len() == h,
{
    let u = universe(h);
    let rel = step_rel(nodes, events, t, p);
    assert forall|x: Seq<u32>, y: Seq<u32>| u.contains(x) && #[trigger] rel(x, y) implies u.contains(
        y,
    ) by {
        lemma_step_len(nodes, events, t, p, x, y);
    }
    lemma_closure_least(rel, s, u);
}

/// Nothing is reached from nothing.
pub proof fn lemma_reachable_empty(
    nodes: Seq<LDDNode>,
    events: Seq<SaturationEvent>,
    t: int,
    p: int,
)
    ensures
        reachable(nodes, events, t, p, Set::empty()) == Set::<Seq<u32>>::empty(),
{
    let rel = step_rel(nodes, events, t, p);
    lemma_closure_least(rel, Set::empty(), Set::empty());
    assert(reachable(nodes, events, t, p, Set::empty()) =~= Set::<Seq<u32>>::empty());
}

/// The events that start below position `p` are among those that start at `p` or below.
pub proof fn lemma_step_weaken(
    nodes: Seq<LDDNode>,
    events: Seq<SaturationEvent>,
    p: int,
)
    ensures
        forall|x: Seq<u32>, y: Seq<u32>| #[trigger]
            step_rel(nodes, events, p + 1, p)(x, y) ==> step_rel(nodes, events, p, p)(x, y),
{
    assert forall|x: Seq<u32>, y: Seq<u32>| #[trigger]
        step_rel(nodes, events, p + 1, p)(x, y) implies step_rel(nodes, events, p, p)(x, y) by {
        let i: int = choose|i: int|
            0 <= i < events.len() && events[i].top >= p + 1 && #[trigger] event_step(
                nodes,
                events[i],
                p,
                x,
                y,
            );
        assert(event_step(nodes, events[i], p, x, y));
    }
}

/// The arcs of the node that is being saturated, above those of the nodes around it.
pub open spec fn arcs_above(arcs: Seq<(u32, LDDEdge)>, base: usize) -> Seq<(u32, LDDEdge)> {
    arcs.skip(base as int)
}

/// The arcs above a base are those at that position and after, and they are sorted exactly if each has
/// a smaller value than those that follow.
pub proof fn law_arcs_above(arcs: Seq<(u32, LDDEdge)>, base: usize)
    requires
        base <= arcs.len(),
    ensures
        arcs_above(arcs, base) == arcs.subrange(base as int, arcs.len() as int),
        sorted(arcs_above(arcs, base)) <==> forall|i: int, j: int|
            base <= i < j < arcs.len() ==> (#[trigger] arcs[i]).0 < (#[trigger] arcs[j]).0,
{
    let above = arcs_above(arcs, base);
    if sorted(above) {
        assert forall|i: int, j: int| base <= i < j < arcs.len() implies (#[trigger] arcs[i]).0 < (
        #[trigger] arcs[j]).0 by {
            assert(above[i - base].0 < above[j - base].0);
        }
    }
}

/// Returns the position of the arc for `value`, which exists, among the arcs from `base` on.
pub fn arc_position(arcs: &Vec<(u32, LDDEdge)>, base: usize, value: u32) -> (pos: usize)
    requires
        base <= arcs@.len(),
        sorted(arcs_above(arcs@, base)),
        exists|k: int|
            0 <= k < arcs_above(arcs@, base).len() && (#[trigger] arcs_above(arcs@, base)[k]).0
                == value,
    ensures
        base <= pos < arcs@.len(),
        value_at(arcs@, pos) == value,
        forall|k: int| k == pos ==> (#[trigger] arcs@[k]).0 == value,
{
    broadcast use group_laws_cmp;

    let own = slice_subrange(arcs.as_slice(), base, arcs.len());
    assert(own@ == arcs_above(arcs@, base));
    let pos: usize = find_arc(own, &value).unwrap();
    assert(value_at(own@, pos) == value);
    base + pos
}

/// Searches the arcs from `base` on for `value`: `Ok` with its position, or `Err` with the position
/// at which an arc for `value` can be inserted such that the arcs stay sorted.
pub fn arc_search(arcs: &Vec<(u32, LDDEdge)>, base: usize, value: u32) -> (r: Result<usize, usize>)
    requires
        base <= arcs@.len(),
        sorted(arcs_above(arcs@, base)),
    ensures
        match r {
            Ok(pos) => {
                &&& base <= pos < arcs@.len()
                &&& value_at(arcs@, pos) == value
                &&& forall|k: int| k == pos ==> (#[trigger] arcs@[k]).0 == value
            },
            Err(pos) => {
                &&& base <= pos <= arcs@.len()
                &&& forall|k: int| base <= k < pos ==> (#[trigger] arcs@[k]).0 < value
                &&& forall|k: int| pos <= k < arcs@.len() ==> (#[trigger] arcs@[k]).0 > value
            },
        },
{
    broadcast use group_laws_cmp;

    let own = slice_subrange(arcs.as_slice(), base, arcs.len());
    assert(own@ == arcs_above(arcs@, base));
    match search_arc(own, &value) {
        Ok(pos) => {
            assert(value_at(own@, pos) == value);
            Ok(base + pos)
        },
        Err(pos) => {
            assert forall|k: int| base <= k < base + pos implies (#[trigger] arcs@[k]).0 < value by {
                assert(own@[k - base] == arcs@[k]);
            }
            assert forall|k: int| base + pos <= k < arcs@.len() implies (#[trigger] arcs@[k]).0
                > value by {
                assert(own@[k - base] == arcs@[k]);
            }
            Err(base + pos)
        },
    }
}

} // verus!
