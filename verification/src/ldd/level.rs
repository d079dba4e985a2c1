//! The state of a node that is being saturated.

use super::accumulator::{
    arc_ok, arcs_ok, arcs_vectors, lemma_arcs_extends, lemma_arcs_push, lemma_arcs_tails,
    lemma_reachable_above, lemma_reachable_len, lemma_step_weaken, sorted, successors_in,
};
use super::apply::lemma_fits;
use super::closure::{lemma_closure_closed, lemma_closure_least, lemma_closure_union};
use super::demand::{
    added, beyond, effects, lemma_beyond_present, lemma_effects_extends, Effects,
};
use super::firing::{
    event_known, events_known, events_ok, image, lemma_events_extends, lemma_image_step,
    lemma_meta_extends, lemma_reachable_prefixed, lemma_step_len, meta_of, reachable, saturated,
    starts_above, step_rel, SaturationEvent,
};
use super::semantics::{
    above, absent, empty, extends, fits, height, is_inner, is_ldd, lemma_above, lemma_extends,
    lemma_terminals, prefixed, unit, valid, vectors, LDDEdge, LDDNode,
};
use vstd::prelude::*;

verus! {

/// `t` consists of `s` and possibly more on top.
pub open spec fn stacked<T>(s: Seq<T>, t: Seq<T>) -> bool {
    s.len() <= t.len() && t.take(s.len() as int) == s
}

/// Everything keeps its meaning when nodes are added.
pub proof fn lemma_stable(a: Seq<LDDNode>, b: Seq<LDDNode>, events: Seq<SaturationEvent>)
    requires
        is_ldd(a),
        extends(a, b),
        events_known(a, events),
    ensures
        forall|e: LDDEdge| #[trigger] valid(a, e) ==> valid(b, e),
        forall|e: LDDEdge| valid(a, e) ==> #[trigger] height(b, e) == height(a, e),
        forall|e: LDDEdge, h: nat| #[trigger] fits(a, e, h) ==> fits(b, e, h),
        forall|e: LDDEdge| valid(a, e) ==> #[trigger] vectors(b, e) == vectors(a, e),
        forall|e: LDDEdge| valid(a, e) ==> #[trigger] meta_of(b, e) == meta_of(a, e),
        events_known(b, events),
        forall|p: int| events_ok(a, events, p) ==> #[trigger] events_ok(b, events, p),
        forall|t: int, p: int| #[trigger]
            step_rel(b, events, t, p) == step_rel(a, events, t, p),
        effects(b, events) == effects(a, events),
{
    lemma_extends(a, b);
    lemma_events_extends(a, b, events);
    lemma_effects_extends(a, b, events);
    assert forall|e: LDDEdge| valid(a, e) implies #[trigger] meta_of(b, e) == meta_of(a, e) by {
        lemma_meta_extends(a, b, e);
    }
}

/// A node whose parts are closed is closed under the events that start below its position.
pub proof fn lemma_node_parts(
    a: Seq<LDDNode>,
    b: Seq<LDDNode>,
    events: Seq<SaturationEvent>,
    p: int,
    d: nat,
    v: u32,
    down: LDDEdge,
    right: LDDEdge,
    s: Set<Seq<u32>>,
    t: Set<Seq<u32>>,
)
    requires
        is_ldd(b),
        valid(b, down),
        valid(b, right),
        vectors(b, down) == reachable(a, events, p + 1, p + 1, s),
        vectors(b, right) == reachable(a, events, p + 1, p, t),
        forall|x: Seq<u32>| #[trigger] s.contains(x) ==> x.len() == d,
        forall|x: Seq<u32>| #[trigger] t.contains(x) ==> x.len() == d + 1,
        starts_above(t, v),
    ensures
        fits(b, down, d),
        right != unit(),
        fits(b, right, d + 1),
        above(b, right, v),
        prefixed(v, vectors(b, down)).union(vectors(b, right)) == reachable(
            a,
            events,
            p + 1,
            p,
            prefixed(v, s).union(t),
        ),
{
    lemma_reachable_len(a, events, p + 1, p + 1, s, d);
    lemma_reachable_len(a, events, p + 1, p, t, d + 1);
    lemma_reachable_above(a, events, p, t, v);
    lemma_fits(b, down, d);
    lemma_fits(b, right, d + 1);
    lemma_above(b, right, v);
    lemma_reachable_prefixed(a, events, p, v, s);
    lemma_closure_union(step_rel(a, events, p + 1, p), prefixed(v, s), t);
}

/// Two sets that are closed have a union that is closed.
pub proof fn lemma_union_parts(
    a: Seq<LDDNode>,
    b: Seq<LDDNode>,
    events: Seq<SaturationEvent>,
    p: int,
    h: nat,
    x: LDDEdge,
    y: LDDEdge,
    s: Set<Seq<u32>>,
    t: Set<Seq<u32>>,
)
    requires
        is_ldd(b),
        valid(b, x),
        valid(b, y),
        vectors(b, x) == reachable(a, events, p + 1, p, s),
        vectors(b, y) == reachable(a, events, p + 1, p, t),
        forall|v: Seq<u32>| #[trigger] s.contains(v) ==> v.len() == h,
        forall|v: Seq<u32>| #[trigger] t.contains(v) ==> v.len() == h,
    ensures
        x == empty() || y == empty() || height(b, x) == height(b, y),
        vectors(b, x).union(vectors(b, y)) == reachable(a, events, p + 1, p, s.union(t)),
{
    lemma_reachable_len(a, events, p + 1, p, s, h);
    lemma_reachable_len(a, events, p + 1, p, t, h);
    lemma_fits(b, x, h);
    lemma_fits(b, y, h);
    lemma_closure_union(step_rel(a, events, p + 1, p), s, t);
}

/// A fired pair contributes the vectors that start with its value.
pub proof fn lemma_fired(
    a: Seq<LDDNode>,
    b: Seq<LDDNode>,
    events: Seq<SaturationEvent>,
    p: int,
    d: nat,
    fired: Seq<(u32, LDDEdge)>,
    v: u32,
    f: LDDEdge,
    s: Set<Seq<u32>>,
)
    requires
        is_ldd(a),
        is_ldd(b),
        extends(a, b),
        events_known(a, events),
        arcs_ok(b, events, p, d, fired),
        valid(b, f),
        vectors(b, f) == reachable(a, events, p + 1, p + 1, s),
        forall|x: Seq<u32>| #[trigger] s.contains(x) ==> x.len() == d,
    ensures
        ({
            let more = if f == empty() {
                fired
            } else {
                fired.push((v, f))
            };
            &&& arcs_ok(b, events, p, d, more)
            &&& arcs_vectors(b, more) == arcs_vectors(b, fired).union(
                reachable(a, events, p + 1, p, prefixed(v, s)),
            )
        }),
{
    lemma_stable(a, b, events);
    lemma_reachable_prefixed(a, events, p, v, s);
    if f == empty() {
        lemma_terminals(b);
        assert(prefixed(v, vectors(b, f)) =~= Set::<Seq<u32>>::empty());
        assert(arcs_vectors(b, fired).union(Set::empty()) =~= arcs_vectors(b, fired));
    } else {
        lemma_arcs_push(b, fired, v, f);
        lemma_reachable_len(a, events, p + 1, p + 1, s, d);
        lemma_fits(b, f, d);
        lemma_closure_closed(step_rel(a, events, p + 1, p + 1), s);
        assert(step_rel(b, events, p + 1, p + 1) == step_rel(a, events, p + 1, p + 1));
        assert(arc_ok(b, events, p, d, f));
        let more = fired.push((v, f));
        assert forall|k: int| 0 <= k < more.len() implies arc_ok(
            b,
            events,
            p,
            d,
            (#[trigger] more[k]).1,
        ) by {
            if k < fired.len() {
                assert(more[k] == fired[k]);
            }
        }
    }
}

/// The value is one of those of the arcs.
pub open spec fn has_value(arcs: Seq<(u32, LDDEdge)>, v: u32) -> bool {
    exists|k: int| 0 <= k < arcs.len() && (#[trigger] arcs[k]).0 == v
}

/// The state of a node that is being saturated: the arcs are sorted and fine, their vectors are in
/// `c`, and the values that are queued are among those of the arcs.
pub open spec fn level_ok(
    nodes: Seq<LDDNode>,
    events: Seq<SaturationEvent>,
    p: int,
    d: nat,
    arcs: Seq<(u32, LDDEdge)>,
    pending: Seq<u32>,
    c: Set<Seq<u32>>,
) -> bool {
    &&& sorted(arcs)
    &&& arcs_ok(nodes, events, p, d, arcs)
    &&& arcs_vectors(nodes, arcs).subset_of(c)
    &&& forall|x: int| 0 <= x < pending.len() ==> has_value(arcs, #[trigger] pending[x])
}

/// No event that starts at position `p` leads out of the arcs, except from values that are queued.
pub open spec fn finished(
    nodes: Seq<LDDNode>,
    events: Seq<SaturationEvent>,
    p: int,
    arcs: Seq<(u32, LDDEdge)>,
    pending: Seq<u32>,
) -> bool {
    forall|k: int|
        0 <= k < arcs.len() && !pending.contains((#[trigger] arcs[k]).0) ==> successors_in(
            nodes,
            events,
            p,
            arcs[k].0,
            arcs[k].1,
            arcs_vectors(nodes, arcs),
        )
}

/// Like [`finished`], except for the value `i`: unless it is queued, it still has the continuations
/// `arc_i`.
pub open spec fn finished_but(
    nodes: Seq<LDDNode>,
    events: Seq<SaturationEvent>,
    p: int,
    arcs: Seq<(u32, LDDEdge)>,
    pending: Seq<u32>,
    i: u32,
    arc_i: LDDEdge,
) -> bool {
    forall|k: int|
        0 <= k < arcs.len() && !pending.contains((#[trigger] arcs[k]).0) ==> if arcs[k].0 == i {
            arcs[k].1 == arc_i
        } else {
            successors_in(nodes, events, p, arcs[k].0, arcs[k].1, arcs_vectors(nodes, arcs))
        }
}

/// The images of `a` under the first `n` events that start at position `p` are in `s`.
pub open spec fn fired_so_far(
    nodes: Seq<LDDNode>,
    events: Seq<SaturationEvent>,
    p: int,
    n: int,
    a: Set<Seq<u32>>,
    s: Set<Seq<u32>>,
) -> bool {
    forall|e: int|
        0 <= e < n && (#[trigger] events[e]).top == p ==> image(
            a,
            vectors(nodes, events[e].relation),
            meta_of(nodes, events[e].meta_at_top),
        ).subset_of(s)
}

/// An arc stays fine when nodes are added.
pub proof fn lemma_arcs_extends_one(
    a: Seq<LDDNode>,
    b: Seq<LDDNode>,
    events: Seq<SaturationEvent>,
    p: int,
    d: nat,
    e: LDDEdge,
)
    requires
        is_ldd(a),
        extends(a, b),
        events_known(a, events),
        arc_ok(a, events, p, d, e),
    ensures
        arc_ok(b, events, p, d, e),
{
    lemma_stable(a, b, events);
    assert(step_rel(b, events, p + 1, p + 1) == step_rel(a, events, p + 1, p + 1));
}

/// Arcs side by side stand for the union of their vectors.
pub proof fn lemma_arcs_concat(
    nodes: Seq<LDDNode>,
    events: Seq<SaturationEvent>,
    p: int,
    d: nat,
    a: Seq<(u32, LDDEdge)>,
    b: Seq<(u32, LDDEdge)>,
)
    requires
        arcs_ok(nodes, events, p, d, a),
        arcs_ok(nodes, events, p, d, b),
    ensures
        arcs_ok(nodes, events, p, d, a + b),
        arcs_vectors(nodes, a + b) == arcs_vectors(nodes, a).union(arcs_vectors(nodes, b)),
{
    let c = a + b;
    assert forall|k: int| 0 <= k < c.len() implies arc_ok(
        nodes,
        events,
        p,
        d,
        (#[trigger] c[k]).1,
    ) by {
        if k < a.len() {
            assert(c[k] == a[k]);
        } else {
            assert(c[k] == b[k - a.len()]);
        }
    }
    assert forall|x: Seq<u32>| arcs_vectors(nodes, c).contains(x) == arcs_vectors(nodes, a).union(
        arcs_vectors(nodes, b),
    ).contains(x) by {
        if arcs_vectors(nodes, c).contains(x) {
            let k: int = choose|k: int|
                0 <= k < c.len() && prefixed((#[trigger] c[k]).0, vectors(nodes, c[k].1)).contains(
                    x,
                );
            if k < a.len() {
                assert(c[k] == a[k]);
            } else {
                assert(c[k] == b[k - a.len()]);
            }
        }
        if arcs_vectors(nodes, a).contains(x) {
            let k: int = choose|k: int|
                0 <= k < a.len() && prefixed((#[trigger] a[k]).0, vectors(nodes, a[k].1)).contains(
                    x,
                );
            assert(c[k] == a[k]);
        }
        if arcs_vectors(nodes, b).contains(x) {
            let k: int = choose|k: int|
                0 <= k < b.len() && prefixed((#[trigger] b[k]).0, vectors(nodes, b[k].1)).contains(
                    x,
                );
            assert(c[k + a.len()] == b[k]);
        }
    }
    assert(arcs_vectors(nodes, c) =~= arcs_vectors(nodes, a).union(arcs_vectors(nodes, b)));
}

/// Firing an event that starts at position `p` and closing under the events below does not lead out
/// of a set that is closed under all of them.
pub proof fn lemma_image_within(
    nodes: Seq<LDDNode>,
    events: Seq<SaturationEvent>,
    k: int,
    p: int,
    a: Set<Seq<u32>>,
    c: Set<Seq<u32>>,
)
    requires
        0 <= k < events.len(),
        events[k].top == p,
        a.subset_of(c),
        saturated(nodes, events, p, p, c),
    ensures
        reachable(
            nodes,
            events,
            p + 1,
            p,
            image(
                a,
                vectors(nodes, events[k].relation),
                meta_of(nodes, events[k].meta_at_top),
            ),
        ).subset_of(c),
{
    let s = image(
        a,
        vectors(nodes, events[k].relation),
        meta_of(nodes, events[k].meta_at_top),
    );
    assert forall|y: Seq<u32>| s.contains(y) implies c.contains(y) by {
        let x = lemma_image_step(nodes, events, k, p, a, y);
        assert(step_rel(nodes, events, p, p)(x, y));
    }
    lemma_step_weaken(nodes, events, p);
    lemma_closure_least(step_rel(nodes, events, p + 1, p), s, c);
}

/// The state of a node that is being saturated stays as it is when nodes are added.
pub proof fn lemma_level_extends(
    a: Seq<LDDNode>,
    b: Seq<LDDNode>,
    events: Seq<SaturationEvent>,
    p: int,
    d: nat,
    arcs: Seq<(u32, LDDEdge)>,
    pending: Seq<u32>,
    c: Set<Seq<u32>>,
)
    requires
        is_ldd(a),
        extends(a, b),
        events_known(a, events),
        level_ok(a, events, p, d, arcs, pending, c),
    ensures
        level_ok(b, events, p, d, arcs, pending, c),
{
    lemma_arcs_extends(a, b, events, p, d, arcs);
}

/// Whether an event leads out of a set does not change when nodes are added, or when the set grows.
pub proof fn lemma_successors_extends(
    a: Seq<LDDNode>,
    b: Seq<LDDNode>,
    events: Seq<SaturationEvent>,
    p: int,
    v: u32,
    e: LDDEdge,
    s: Set<Seq<u32>>,
    t: Set<Seq<u32>>,
)
    requires
        is_ldd(a),
        extends(a, b),
        events_known(a, events),
        valid(a, e),
        successors_in(a, events, p, v, e, s),
        s.subset_of(t),
    ensures
        successors_in(b, events, p, v, e, t),
{
    lemma_stable(a, b, events);
    assert forall|i: int| 0 <= i < events.len() && (#[trigger] events[i]).top == p implies image(
        prefixed(v, vectors(b, e)),
        vectors(b, events[i].relation),
        meta_of(b, events[i].meta_at_top),
    ).subset_of(t) by {
        assert(event_known(a, events[i]));
    }
}

/// What is finished stays finished when nodes are added.
pub proof fn lemma_finished_extends(
    a: Seq<LDDNode>,
    b: Seq<LDDNode>,
    events: Seq<SaturationEvent>,
    p: int,
    arcs: Seq<(u32, LDDEdge)>,
    pending: Seq<u32>,
    d: nat,
)
    requires
        is_ldd(a),
        extends(a, b),
        events_known(a, events),
        arcs_ok(a, events, p, d, arcs),
        finished(a, events, p, arcs, pending),
    ensures
        finished(b, events, p, arcs, pending),
{
    lemma_arcs_extends(a, b, events, p, d, arcs);
    assert forall|k: int|
        0 <= k < arcs.len() && !pending.contains((#[trigger] arcs[k]).0) implies successors_in(
        b,
        events,
        p,
        arcs[k].0,
        arcs[k].1,
        arcs_vectors(b, arcs),
    ) by {
        assert(arc_ok(a, events, p, d, arcs[k].1));
        lemma_successors_extends(
            a,
            b,
            events,
            p,
            arcs[k].0,
            arcs[k].1,
            arcs_vectors(a, arcs),
            arcs_vectors(b, arcs),
        );
    }
}

/// Terminals are fixed points of every event.
pub proof fn lemma_terminal_saturated(
    nodes: Seq<LDDNode>,
    events: Seq<SaturationEvent>,
    p: int,
    e: LDDEdge,
)
    requires
        !is_inner(e),
    ensures
        saturated(nodes, events, p, p, vectors(nodes, e)),
{
    lemma_terminals(nodes);
    let rel = step_rel(nodes, events, p, p);
    assert forall|x: Seq<u32>, y: Seq<u32>| vectors(nodes, e).contains(x) && #[trigger] rel(
        x,
        y,
    ) implies vectors(nodes, e).contains(y) by {
        lemma_step_len(nodes, events, p, p, x, y);
        assert(y =~= x);
    }
}

/// What is not queued was not queued before.
pub proof fn lemma_not_pending(before: Seq<u32>, after: Seq<u32>, v: u32)
    requires
        stacked(before, after),
        !after.contains(v),
    ensures
        !before.contains(v),
{
    if before.contains(v) {
        let x = choose|x: int| 0 <= x < before.len() && before[x] == v;
        assert(after.take(before.len() as int)[x] == after[x]);
        assert(after[x] == v);
    }
}

/// What is finished except for a value stays so when nodes are added.
pub proof fn lemma_finished_but_extends(
    a: Seq<LDDNode>,
    b: Seq<LDDNode>,
    events: Seq<SaturationEvent>,
    p: int,
    d: nat,
    arcs: Seq<(u32, LDDEdge)>,
    pending: Seq<u32>,
    i: u32,
    arc_i: LDDEdge,
)
    requires
        is_ldd(a),
        extends(a, b),
        events_known(a, events),
        arcs_ok(a, events, p, d, arcs),
        finished_but(a, events, p, arcs, pending, i, arc_i),
    ensures
        finished_but(b, events, p, arcs, pending, i, arc_i),
{
    lemma_arcs_extends(a, b, events, p, d, arcs);
    assert forall|k: int| 0 <= k < arcs.len() && !pending.contains((#[trigger] arcs[k]).0) implies (
    if arcs[k].0 == i {
        arcs[k].1 == arc_i
    } else {
        successors_in(b, events, p, arcs[k].0, arcs[k].1, arcs_vectors(b, arcs))
    }) by {
        assert(arc_ok(a, events, p, d, arcs[k].1));
        if arcs[k].0 != i {
            lemma_successors_extends(
                a,
                b,
                events,
                p,
                arcs[k].0,
                arcs[k].1,
                arcs_vectors(a, arcs),
                arcs_vectors(b, arcs),
            );
        }
    }
}

/// If the node for the last arcs has no edge, then neither has the node for all of them.
pub proof fn lemma_arcs_missing(
    nodes: Seq<LDDNode>,
    arcs: Seq<(u32, LDDEdge)>,
    v: u32,
    e: LDDEdge,
    rest: Set<Seq<u32>>,
)
    requires
        is_ldd(nodes),
        sorted(arcs.push((v, e))),
        starts_above(rest, v),
        absent(nodes, prefixed(v, vectors(nodes, e)).union(rest)),
    ensures
        absent(nodes, arcs_vectors(nodes, arcs.push((v, e))).union(rest)),
{
    let last = prefixed(v, vectors(nodes, e)).union(rest);
    let all = arcs_vectors(nodes, arcs.push((v, e))).union(rest);
    lemma_arcs_push(nodes, arcs, v, e);
    if arcs.len() == 0 {
        assert(arcs_vectors(nodes, arcs) =~= Set::<Seq<u32>>::empty());
        assert(all =~= last);
    } else {
        let more = arcs.push((v, e));
        let u = more[arcs.len() - 1].0;
        assert(u < more[arcs.len() as int].0);
        assert forall|x: Seq<u32>| arcs_vectors(nodes, arcs).contains(x) implies x.len() > 0
            && x[0] <= u by {
            let k: int = choose|k: int|
                0 <= k < arcs.len() && prefixed(
                    (#[trigger] arcs[k]).0,
                    vectors(nodes, arcs[k].1),
                ).contains(x);
            assert(more[k] == arcs[k]);
        }
        assert(beyond(all, u) =~= last);
        assert forall|f: LDDEdge| #[trigger] valid(nodes, f) implies vectors(nodes, f) != all by {
            if vectors(nodes, f) == all {
                let g = lemma_beyond_present(nodes, f, u);
                assert(valid(nodes, g));
            }
        }
    }
}

/// The continuations of the pair are what one of the events that start at position `p` adds to its
/// value, fired out of the value `i` with the continuations `a`.
pub open spec fn is_added(
    fx: Effects,
    nodes: Seq<LDDNode>,
    p: int,
    i: u32,
    a: Set<Seq<u32>>,
    pair: (u32, LDDEdge),
) -> bool {
    exists|e: int|
        fx.starts(e, p) && #[trigger] added(fx, p, i, a, e, pair.0) == vectors(nodes, pair.1)
}

/// All pairs are what events add.
pub open spec fn all_added(
    fx: Effects,
    nodes: Seq<LDDNode>,
    p: int,
    i: u32,
    a: Set<Seq<u32>>,
    fired: Seq<(u32, LDDEdge)>,
) -> bool {
    forall|k: int| 0 <= k < fired.len() ==> is_added(fx, nodes, p, i, a, #[trigger] fired[k])
}

/// The pairs that another event adds are what events add.
pub proof fn lemma_added_more(
    fx: Effects,
    before: Seq<LDDNode>,
    after: Seq<LDDNode>,
    events: Seq<SaturationEvent>,
    p: int,
    d: nat,
    i: u32,
    a: Set<Seq<u32>>,
    fired: Seq<(u32, LDDEdge)>,
    more: Seq<(u32, LDDEdge)>,
    e: int,
)
    requires
        is_ldd(before),
        extends(before, after),
        arcs_ok(before, events, p, d, fired),
        all_added(fx, before, p, i, a, fired),
        sorted(more),
        fx.starts(e, p),
        arcs_vectors(after, more) == fx.fired(p, i, a, e),
    ensures
        all_added(fx, after, p, i, a, fired + more),
{
    lemma_extends(before, after);
    let all = fired + more;
    assert forall|k: int| 0 <= k < all.len() implies is_added(fx, after, p, i, a, #[trigger] all[k]) by {
        if k < fired.len() {
            assert(all[k] == fired[k]);
            assert(is_added(fx, before, p, i, a, fired[k]));
            assert(arc_ok(before, events, p, d, fired[k].1));
            let x = choose|x: int|
                fx.starts(x, p) && #[trigger] added(fx, p, i, a, x, fired[k].0) == vectors(
                    before,
                    fired[k].1,
                );
            assert(added(fx, p, i, a, x, all[k].0) == vectors(after, all[k].1));
        } else {
            let y = k - fired.len();
            assert(all[k] == more[y]);
            let s = added(fx, p, i, a, e, more[y].0);
            assert forall|w: Seq<u32>| s.contains(w) == vectors(after, more[y].1).contains(w) by {
                lemma_arcs_tails(after, more, y, w);
            }
            assert(s =~= vectors(after, more[y].1));
        }
    }
}

} // verus!
