//! Laws of list decision diagrams and of saturation.

use super::accumulator::{
    arc_ok, arcs_ok, arcs_vectors, lemma_arcs_tails, lemma_reachable_empty, lemma_reachable_len,
    sorted,
};
use super::closure::{
    lemma_closure_closed, lemma_closure_fixed, lemma_closure_least, lemma_closure_monotone,
    lemma_closure_union,
};
use super::firing::{
    can_step, event_step, fires, lemma_fires_len, lemma_reachable_prefixed, lemma_step_tail,
    meta_of, meta_ok, reachable, saturated, step_rel, tails, SaturationEvent, NOT_IN_RELATION,
    READ_OF_PAIR,
};
use super::level::has_value;
use super::semantics::{
    cons, extends, is_ldd, lemma_canonical, lemma_cons, lemma_extends, lemma_nonempty,
    lemma_uncons, prefixed, valid, vectors, LDDEdge, LDDNode,
};
use vstd::prelude::*;

verus! {

/// Edges are canonical: two edges stand for the same set exactly if they are the same, also if nodes
/// were added in between.
pub proof fn law_canonical(
    nodes: Seq<LDDNode>,
    later: Seq<LDDNode>,
    a: LDDEdge,
    b: LDDEdge,
)
    requires
        is_ldd(nodes),
        is_ldd(later),
        extends(nodes, later),
        valid(nodes, a),
        valid(later, b),
    ensures
        a == b <==> vectors(nodes, a) == vectors(later, b),
{
    lemma_extends(nodes, later);
    if vectors(nodes, a) == vectors(later, b) {
        lemma_canonical(later, a, b);
    }
}

/// Saturation yields a superset of the set that is closed under the events, and there is no smaller
/// one.
pub proof fn law_saturation_least(
    nodes: Seq<LDDNode>,
    events: Seq<SaturationEvent>,
    p: int,
    s: Set<Seq<u32>>,
    t: Set<Seq<u32>>,
)
    requires
        s.subset_of(t),
        saturated(nodes, events, p, p, t),
    ensures
        s.subset_of(reachable(nodes, events, p, p, s)),
        saturated(nodes, events, p, p, reachable(nodes, events, p, p, s)),
        reachable(nodes, events, p, p, s).subset_of(t),
{
    let rel = step_rel(nodes, events, p, p);
    lemma_closure_closed(rel, s);
    lemma_closure_least(rel, s, t);
}

/// The vectors of `s` and those that sequences of at most `n` events lead to from there.
pub open spec fn within(
    nodes: Seq<LDDNode>,
    events: Seq<SaturationEvent>,
    p: int,
    s: Set<Seq<u32>>,
    n: nat,
) -> Set<Seq<u32>>
    decreases n,
{
    if n == 0 {
        s
    } else {
        let before = within(nodes, events, p, s, (n - 1) as nat);
        Set::new(
            |y: Seq<u32>|
                before.contains(y) || exists|x: Seq<u32>|
                    before.contains(x) && #[trigger] can_step(nodes, events, p, p, x, y),
        )
    }
}

/// Saturation yields exactly the vectors that are reached by firing events one after the other, any
/// number of times.
pub proof fn law_saturation_reaches(
    nodes: Seq<LDDNode>,
    events: Seq<SaturationEvent>,
    p: int,
    s: Set<Seq<u32>>,
    y: Seq<u32>,
)
    ensures
        reachable(nodes, events, p, p, s).contains(y) <==> exists|n: nat| #[trigger]
            within(nodes, events, p, s, n).contains(y),
{
    let rel = step_rel(nodes, events, p, p);
    let all = Set::new(
        |x: Seq<u32>| exists|n: nat| #[trigger] within(nodes, events, p, s, n).contains(x),
    );
    assert forall|x: Seq<u32>| s.contains(x) implies all.contains(x) by {
        assert(within(nodes, events, p, s, 0).contains(x));
    }
    assert forall|x: Seq<u32>, z: Seq<u32>| all.contains(x) && #[trigger] rel(x, z) implies all.contains(
        z,
    ) by {
        let n = choose|n: nat| #[trigger] within(nodes, events, p, s, n).contains(x);
        assert(can_step(nodes, events, p, p, x, z));
        assert(within(nodes, events, p, s, n + 1).contains(z));
    }
    lemma_closure_least(rel, s, all);
    if all.contains(y) {
        let n = choose|n: nat| #[trigger] within(nodes, events, p, s, n).contains(y);
        lemma_within(nodes, events, p, s, n);
    }
}

proof fn lemma_within(
    nodes: Seq<LDDNode>,
    events: Seq<SaturationEvent>,
    p: int,
    s: Set<Seq<u32>>,
    n: nat,
)
    ensures
        within(nodes, events, p, s, n).subset_of(reachable(nodes, events, p, p, s)),
    decreases n,
{
    let rel = step_rel(nodes, events, p, p);
    let c = reachable(nodes, events, p, p, s);
    lemma_closure_closed(rel, s);
    if n > 0 {
        let before = within(nodes, events, p, s, (n - 1) as nat);
        lemma_within(nodes, events, p, s, (n - 1) as nat);
        assert forall|y: Seq<u32>| within(nodes, events, p, s, n).contains(y) implies c.contains(
            y,
        ) by {
            if !before.contains(y) {
                let x = choose|x: Seq<u32>|
                    before.contains(x) && #[trigger] can_step(nodes, events, p, p, x, y);
                assert(rel(x, y));
            }
        }
    }
}

/// Saturating a saturated set changes nothing.
pub proof fn law_saturation_idempotent(
    nodes: Seq<LDDNode>,
    events: Seq<SaturationEvent>,
    p: int,
    s: Set<Seq<u32>>,
)
    ensures
        reachable(nodes, events, p, p, reachable(nodes, events, p, p, s)) == reachable(
            nodes,
            events,
            p,
            p,
            s,
        ),
{
    let rel = step_rel(nodes, events, p, p);
    lemma_closure_closed(rel, s);
    lemma_closure_fixed(rel, reachable(nodes, events, p, p, s));
}

/// Saturation is monotone, and it distributes over unions.
pub proof fn law_saturation_union(
    nodes: Seq<LDDNode>,
    events: Seq<SaturationEvent>,
    p: int,
    s: Set<Seq<u32>>,
    t: Set<Seq<u32>>,
)
    ensures
        s.subset_of(t) ==> reachable(nodes, events, p, p, s).subset_of(
            reachable(nodes, events, p, p, t),
        ),
        reachable(nodes, events, p, p, s.union(t)) == reachable(nodes, events, p, p, s).union(
            reachable(nodes, events, p, p, t),
        ),
{
    let rel = step_rel(nodes, events, p, p);
    if s.subset_of(t) {
        lemma_closure_monotone(rel, s, t);
    }
    lemma_closure_union(rel, s, t);
}

/// The union of two saturated sets is saturated.
pub proof fn law_union_saturated(
    nodes: Seq<LDDNode>,
    events: Seq<SaturationEvent>,
    p: int,
    s: Set<Seq<u32>>,
    t: Set<Seq<u32>>,
)
    requires
        saturated(nodes, events, p, p, s),
        saturated(nodes, events, p, p, t),
    ensures
        saturated(nodes, events, p, p, s.union(t)),
{
    let rel = step_rel(nodes, events, p, p);
    assert forall|x: Seq<u32>, y: Seq<u32>| s.union(t).contains(x) && #[trigger] rel(x, y) implies s.union(
        t,
    ).contains(y) by {
        if s.contains(x) {
            assert(s.contains(y));
        } else {
            assert(t.contains(y));
        }
    }
}

/// Without events, and for the empty set, saturation changes nothing.
pub proof fn law_saturation_trivial(
    nodes: Seq<LDDNode>,
    events: Seq<SaturationEvent>,
    p: int,
    s: Set<Seq<u32>>,
)
    ensures
        reachable(nodes, events, p, p, Set::empty()) == Set::<Seq<u32>>::empty(),
        reachable(nodes, Seq::empty(), p, p, s) == s,
{
    lemma_reachable_empty(nodes, events, p, p);
    let none = Seq::<SaturationEvent>::empty();
    let rel = step_rel(nodes, none, p, p);
    assert forall|x: Seq<u32>, y: Seq<u32>| s.contains(x) && #[trigger] rel(x, y) implies s.contains(
        y,
    ) by {
        assert(can_step(nodes, none, p, p, x, y));
    }
    lemma_closure_fixed(rel, s);
}

/// Saturation keeps the length of the vectors.
pub proof fn law_saturation_length(
    nodes: Seq<LDDNode>,
    events: Seq<SaturationEvent>,
    p: int,
    s: Set<Seq<u32>>,
    h: nat,
)
    requires
        forall|x: Seq<u32>| #[trigger] s.contains(x) ==> x.len() == h,
    ensures
        forall|x: Seq<u32>| #[trigger]
            reachable(nodes, events, p, p, s).contains(x) ==> x.len() == h,
{
    lemma_reachable_len(nodes, events, p, p, s, h);
}

/// The number of positions that `meta` speaks of: the two halves of a pair belong to one position.
pub open spec fn span(meta: Seq<u32>) -> nat
    decreases meta.len(),
{
    if meta.len() == 0 {
        0
    } else if meta[0] == READ_OF_PAIR && meta.len() >= 2 {
        1 + span(meta.drop_first().drop_first())
    } else {
        1 + span(meta.drop_first())
    }
}

/// Firing keeps the components behind those that `meta` speaks of.
proof fn lemma_fires_behind(meta: Seq<u32>, r: Seq<u32>, x: Seq<u32>, y: Seq<u32>, i: int)
    requires
        meta_ok(meta),
        fires(meta, r, x, y),
        span(meta) <= i < x.len(),
    ensures
        i < y.len(),
        x[i] == y[i],
    decreases meta.len(),
{
    lemma_fires_len(meta, r, x, y);
    if meta.len() > 0 {
        let rest = if meta[0] == READ_OF_PAIR {
            meta.drop_first().drop_first()
        } else {
            meta.drop_first()
        };
        let left = if meta[0] == NOT_IN_RELATION {
            r
        } else if meta[0] == READ_OF_PAIR {
            r.drop_first().drop_first()
        } else {
            r.drop_first()
        };
        lemma_fires_behind(rest, left, x.drop_first(), y.drop_first(), i - 1);
        assert(x.drop_first()[i - 1] == x[i]);
        assert(y.drop_first()[i - 1] == y[i]);
    }
}

/// An event only touches positions that belong to it: those above its `top` and those below the last
/// one that it speaks of keep their values.
pub proof fn law_event_range(
    nodes: Seq<LDDNode>,
    event: SaturationEvent,
    p: int,
    x: Seq<u32>,
    y: Seq<u32>,
    i: int,
)
    requires
        meta_ok(meta_of(nodes, event.meta_at_top)),
        event_step(nodes, event, p, x, y),
        0 <= i < x.len(),
        p + i < event.top || p + i >= event.top + span(meta_of(nodes, event.meta_at_top)),
    ensures
        x.len() == y.len(),
        y[i] == x[i],
{
    let k = event.top - p;
    let meta = meta_of(nodes, event.meta_at_top);
    let r = choose|r: Seq<u32>|
        vectors(nodes, event.relation).contains(r) && #[trigger] fires(
            meta,
            r,
            x.skip(k),
            y.skip(k),
        );
    lemma_fires_len(meta, r, x.skip(k), y.skip(k));
    if i < k {
        assert(x.take(k)[i] == y.take(k)[i]);
    } else {
        lemma_fires_behind(meta, r, x.skip(k), y.skip(k), i - k);
        assert(x.skip(k)[i - k] == x[i]);
        assert(y.skip(k)[i - k] == y[i]);
    }
}

/// Closing a set under the events below a position closes the continuations of every value by
/// themselves.
proof fn lemma_reachable_tails(
    nodes: Seq<LDDNode>,
    events: Seq<SaturationEvent>,
    p: int,
    s: Set<Seq<u32>>,
    v: u32,
)
    ensures
        tails(reachable(nodes, events, p + 1, p, s), v) == reachable(
            nodes,
            events,
            p + 1,
            p + 1,
            tails(s, v),
        ),
{
    let rel = step_rel(nodes, events, p + 1, p);
    let a = prefixed(v, tails(s, v));
    let b = s.difference(a);
    let others = Set::new(|x: Seq<u32>| x.len() == 0 || x[0] != v);
    assert forall|x: Seq<u32>| a.contains(x) implies s.contains(x) by {
        lemma_uncons(x);
    }
    assert forall|x: Seq<u32>| b.contains(x) implies others.contains(x) by {
        if x.len() > 0 && x[0] == v {
            lemma_uncons(x);
            assert(tails(s, v).contains(x.drop_first()));
        }
    }
    assert(s =~= a.union(b));
    lemma_closure_union(rel, a, b);
    lemma_reachable_prefixed(nodes, events, p, v, tails(s, v));
    assert forall|x: Seq<u32>, y: Seq<u32>| others.contains(x) && #[trigger] rel(
        x,
        y,
    ) implies others.contains(y) by {
        lemma_step_tail(nodes, events, p, x, y);
    }
    lemma_closure_least(rel, b, others);
    let all = reachable(nodes, events, p + 1, p, s);
    let inner = reachable(nodes, events, p + 1, p + 1, tails(s, v));
    assert forall|w: Seq<u32>| tails(all, v).contains(w) == inner.contains(w) by {
        lemma_cons(v, w);
        assert(all.contains(cons(v, w)) == (prefixed(v, inner).contains(cons(v, w))
            || reachable(nodes, events, p + 1, p, b).contains(cons(v, w))));
    }
    assert(tails(all, v) =~= inner);
}

/// Sorted pairs of a value and its continuations that together stand for the vectors reachable from
/// `s` by the events below a position are one pair for every value that `s` has continuations of,
/// with all that is reachable from those continuations.
pub proof fn law_fired_pairs(
    before: Seq<LDDNode>,
    after: Seq<LDDNode>,
    events: Seq<SaturationEvent>,
    p: int,
    h: nat,
    pairs: Seq<(u32, LDDEdge)>,
    s: Set<Seq<u32>>,
    v: u32,
)
    requires
        is_ldd(after),
        sorted(pairs),
        arcs_ok(after, events, p, h, pairs),
        arcs_vectors(after, pairs) == reachable(before, events, p + 1, p, s),
    ensures
        has_value(pairs, v) <==> exists|w: Seq<u32>| #[trigger] tails(s, v).contains(w),
        forall|k: int|
            0 <= k < pairs.len() && (#[trigger] pairs[k]).0 == v ==> vectors(after, pairs[k].1)
                == reachable(before, events, p + 1, p + 1, tails(s, v)),
{
    let rel = step_rel(before, events, p + 1, p + 1);
    let inner = reachable(before, events, p + 1, p + 1, tails(s, v));
    lemma_reachable_tails(before, events, p, s, v);
    lemma_closure_closed(rel, tails(s, v));
    assert forall|k: int| 0 <= k < pairs.len() && (#[trigger] pairs[k]).0 == v implies vectors(
        after,
        pairs[k].1,
    ) == inner by {
        assert forall|w: Seq<u32>| vectors(after, pairs[k].1).contains(w) == inner.contains(w) by {
            lemma_arcs_tails(after, pairs, k, w);
            assert(tails(arcs_vectors(after, pairs), v).contains(w) == inner.contains(w));
        }
        assert(vectors(after, pairs[k].1) =~= inner);
    }
    if has_value(pairs, v) {
        let k = choose|k: int| 0 <= k < pairs.len() && (#[trigger] pairs[k]).0 == v;
        assert(arc_ok(after, events, p, h, pairs[k].1));
        let w = lemma_nonempty(after, pairs[k].1);
        assert(vectors(after, pairs[k].1).contains(w));
        if forall|x: Seq<u32>| !#[trigger] tails(s, v).contains(x) {
            assert(tails(s, v) =~= Set::<Seq<u32>>::empty());
            lemma_reachable_empty(before, events, p + 1, p + 1);
        }
    }
    if exists|w: Seq<u32>| #[trigger] tails(s, v).contains(w) {
        let w = choose|w: Seq<u32>| #[trigger] tails(s, v).contains(w);
        lemma_cons(v, w);
        assert(inner.contains(w));
        assert(tails(arcs_vectors(after, pairs), v).contains(w));
        let k = choose|k: int|
            0 <= k < pairs.len() && prefixed(
                (#[trigger] pairs[k]).0,
                vectors(after, pairs[k].1),
            ).contains(cons(v, w));
        assert(pairs[k].0 == v);
    }
}

} // verus!
