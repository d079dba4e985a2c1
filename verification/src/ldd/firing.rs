//! What it means to fire an event.

use super::closure::{
    closed, closure, lemma_closure_closed, lemma_closure_fixed, lemma_closure_least,
};
use super::semantics::{
    cons, extends, is_inner, is_ldd, lemma_cons, lemma_extends, lemma_uncons, node_of, node_ok,
    prefixed, valid, vectors, LDDEdge, LDDNode,
};
use vstd::prelude::*;

verus! {

/// The position is not touched.
pub const NOT_IN_RELATION: u32 = 0;

/// The position is read and keeps its value.
pub const READ_ONLY: u32 = 1;

/// The position is written, whatever its value was.
pub const WRITE_ONLY: u32 = 2;

/// The position is read, and written by the entry that follows.
pub const READ_OF_PAIR: u32 = 3;

/// The position read by the entry before is written.
pub const WRITE_OF_PAIR: u32 = 4;

/// A transition relation that touches the positions from `top` on.
///
/// `meta_at_top` says how each position from `top` on takes part: it is a single vector of the
/// constants above. `relation` holds the transitions: vectors with one component for every read and
/// one for every write, in the order of `meta_at_top`.
#[derive(Clone, Copy, PartialEq, Eq, Structural, Debug, Hash)]
pub struct SaturationEvent {
    /// The first position that is touched.
    pub top: u32,
    /// How the positions take part.
    pub meta_at_top: LDDEdge,
    /// The transitions.
    pub relation: LDDEdge,
}

/// The transition `r` leads from `x` to `y`, where `meta` says how the positions take part.
pub open spec fn fires(meta: Seq<u32>, r: Seq<u32>, x: Seq<u32>, y: Seq<u32>) -> bool
    decreases meta.len(),
{
    if meta.len() == 0 {
        x == y
    } else if x.len() == 0 || y.len() == 0 {
        false
    } else if meta[0] == NOT_IN_RELATION {
        x[0] == y[0] && fires(meta.drop_first(), r, x.drop_first(), y.drop_first())
    } else if r.len() == 0 {
        false
    } else if meta[0] == READ_ONLY {
        x[0] == r[0] && y[0] == r[0] && fires(
            meta.drop_first(),
            r.drop_first(),
            x.drop_first(),
            y.drop_first(),
        )
    } else if meta[0] == WRITE_ONLY {
        y[0] == r[0] && fires(
            meta.drop_first(),
            r.drop_first(),
            x.drop_first(),
            y.drop_first(),
        )
    } else if meta[0] == READ_OF_PAIR && meta.len() >= 2 && r.len() >= 2 {
        x[0] == r[0] && y[0] == r[1] && fires(
            meta.drop_first().drop_first(),
            r.drop_first().drop_first(),
            x.drop_first(),
            y.drop_first(),
        )
    } else {
        false
    }
}

/// Every entry is one of the constants, and reads and writes of pairs belong together.
pub open spec fn meta_ok(meta: Seq<u32>) -> bool
    decreases meta.len(),
{
    if meta.len() == 0 {
        true
    } else if meta[0] == NOT_IN_RELATION || meta[0] == READ_ONLY || meta[0] == WRITE_ONLY {
        meta_ok(meta.drop_first())
    } else {
        &&& meta[0] == READ_OF_PAIR
        &&& meta.len() >= 2
        &&& meta[1] == WRITE_OF_PAIR
        &&& meta_ok(meta.drop_first().drop_first())
    }
}

/// The vector that a meta edge stands for: the values along its down-edges.
pub open spec fn meta_of(nodes: Seq<LDDNode>, e: LDDEdge) -> Seq<u32>
    decreases e.id,
{
    if e.id < 2 || e.id >= nodes.len() + 2 {
        seq![]
    } else {
        let n = nodes[e.id - 2];
        if n.down.id < e.id {
            cons(n.value, meta_of(nodes, n.down))
        } else {
            seq![]
        }
    }
}

/// The vectors that a transition of `r` leads to from a vector of `a`.
pub open spec fn image(a: Set<Seq<u32>>, r: Set<Seq<u32>>, meta: Seq<u32>) -> Set<Seq<u32>> {
    Set::new(
        |y: Seq<u32>|
            exists|x: Seq<u32>, v: Seq<u32>|
                a.contains(x) && r.contains(v) && #[trigger] fires(meta, v, x, y),
    )
}

/// The vectors that a transition of `r` leads to if its first component is written, in front of a
/// vector of `a` that the rest of the transition is applied to.
pub open spec fn written(a: Set<Seq<u32>>, r: Set<Seq<u32>>, meta: Seq<u32>) -> Set<Seq<u32>> {
    Set::new(
        |y: Seq<u32>|
            exists|x: Seq<u32>, v: Seq<u32>|
                a.contains(x) && r.contains(v) && v.len() > 0 && y.len() > 0 && y[0] == v[0]
                    && #[trigger] fires(meta, v.drop_first(), x, y.drop_first()),
    )
}

/// The event leads from `x` to `y`, where both start at position `p`.
pub open spec fn event_step(
    nodes: Seq<LDDNode>,
    event: SaturationEvent,
    p: int,
    x: Seq<u32>,
    y: Seq<u32>,
) -> bool {
    let k = event.top - p;
    &&& 0 <= k <= x.len()
    &&& k <= y.len()
    &&& x.take(k) == y.take(k)
    &&& exists|r: Seq<u32>|
        vectors(nodes, event.relation).contains(r) && #[trigger] fires(
            meta_of(nodes, event.meta_at_top),
            r,
            x.skip(k),
            y.skip(k),
        )
}

/// One of the events whose `top` is at least `t` leads from `x` to `y`, where both start at
/// position `p`.
pub open spec fn can_step(
    nodes: Seq<LDDNode>,
    events: Seq<SaturationEvent>,
    t: int,
    p: int,
    x: Seq<u32>,
    y: Seq<u32>,
) -> bool {
    exists|i: int|
        0 <= i < events.len() && events[i].top >= t && #[trigger] event_step(
            nodes,
            events[i],
            p,
            x,
            y,
        )
}

/// [`can_step`] as a relation.
pub open spec fn step_rel(
    nodes: Seq<LDDNode>,
    events: Seq<SaturationEvent>,
    t: int,
    p: int,
) -> spec_fn(Seq<u32>, Seq<u32>) -> bool {
    |x: Seq<u32>, y: Seq<u32>| can_step(nodes, events, t, p, x, y)
}

/// The smallest superset of `s` that is closed under every event whose `top` is at least `t`, where
/// the vectors start at position `p`.
pub open spec fn reachable(
    nodes: Seq<LDDNode>,
    events: Seq<SaturationEvent>,
    t: int,
    p: int,
    s: Set<Seq<u32>>,
) -> Set<Seq<u32>> {
    closure(step_rel(nodes, events, t, p), s)
}

/// The set is closed under every event whose `top` is at least `t`.
pub open spec fn saturated(
    nodes: Seq<LDDNode>,
    events: Seq<SaturationEvent>,
    t: int,
    p: int,
    s: Set<Seq<u32>>,
) -> bool {
    closed(step_rel(nodes, events, t, p), s)
}

/// The events refer to nodes of the diagram.
pub open spec fn events_known(nodes: Seq<LDDNode>, events: Seq<SaturationEvent>) -> bool {
    forall|i: int| 0 <= i < events.len() ==> event_known(nodes, #[trigger] events[i])
}

/// The event refers to nodes of the diagram.
pub open spec fn event_known(nodes: Seq<LDDNode>, event: SaturationEvent) -> bool {
    valid(nodes, event.meta_at_top) && valid(nodes, event.relation)
}

/// The events that start at position `p` or below touch their `top`, and say for every position how
/// it takes part.
pub open spec fn events_ok(nodes: Seq<LDDNode>, events: Seq<SaturationEvent>, p: int) -> bool {
    forall|i: int|
        0 <= i < events.len() && (#[trigger] events[i]).top >= p ==> event_ok(nodes, events[i])
}

/// The event refers to nodes of the diagram, touches the position `top`, and says for every position
/// how it takes part.
pub open spec fn event_ok(nodes: Seq<LDDNode>, event: SaturationEvent) -> bool {
    &&& event_known(nodes, event)
    &&& is_inner(event.meta_at_top)
    &&& meta_ok(meta_of(nodes, event.meta_at_top))
    &&& node_of(nodes, event.meta_at_top).value != NOT_IN_RELATION
}

// ---------------------------------------------------------------------------------------------
// Adding nodes

/// A meta edge keeps its vector when nodes are added.
pub proof fn lemma_meta_extends(a: Seq<LDDNode>, b: Seq<LDDNode>, e: LDDEdge)
    requires
        is_ldd(a),
        extends(a, b),
        valid(a, e),
    ensures
        meta_of(b, e) == meta_of(a, e),
    decreases e.id,
{
    if is_inner(e) {
        assert(node_ok(a, e.id - 2));
        assert(b[e.id - 2] == a[e.id - 2]);
        lemma_meta_extends(a, b, a[e.id - 2].down);
    }
}

/// The parts of an inner meta edge.
pub proof fn lemma_meta_inner(nodes: Seq<LDDNode>, e: LDDEdge)
    requires
        is_ldd(nodes),
        valid(nodes, e),
        is_inner(e),
    ensures
        meta_of(nodes, e).len() > 0,
        meta_of(nodes, e)[0] == node_of(nodes, e).value,
        meta_of(nodes, e).drop_first() == meta_of(nodes, node_of(nodes, e).down),
{
    assert(node_ok(nodes, e.id - 2));
    lemma_cons(node_of(nodes, e).value, meta_of(nodes, node_of(nodes, e).down));
}

/// Events keep their meaning when nodes are added.
pub proof fn lemma_events_extends(
    a: Seq<LDDNode>,
    b: Seq<LDDNode>,
    events: Seq<SaturationEvent>,
)
    requires
        is_ldd(a),
        extends(a, b),
        events_known(a, events),
    ensures
        events_known(b, events),
        forall|p: int| events_ok(a, events, p) ==> #[trigger] events_ok(b, events, p),
        forall|t: int, p: int| #[trigger]
            step_rel(b, events, t, p) == step_rel(a, events, t, p),
{
    lemma_extends(a, b);
    assert forall|i: int| 0 <= i < events.len() implies event_known(b, #[trigger] events[i])
        && vectors(b, events[i].relation) == vectors(a, events[i].relation) && meta_of(
        b,
        events[i].meta_at_top,
    ) == meta_of(a, events[i].meta_at_top) by {
        assert(event_known(a, events[i]));
        lemma_meta_extends(a, b, events[i].meta_at_top);
    }
    assert forall|p: int| events_ok(a, events, p) implies #[trigger] events_ok(b, events, p) by {
        assert forall|i: int| 0 <= i < events.len() && (#[trigger] events[i]).top >= p implies event_ok(
            b,
            events[i],
        ) by {
            assert(event_ok(a, events[i]));
            assert(b[events[i].meta_at_top.id - 2] == a[events[i].meta_at_top.id - 2]);
        }
    }
    assert forall|t: int, p: int| #[trigger] step_rel(b, events, t, p) == step_rel(a, events, t, p)
        by {
        assert forall|x: Seq<u32>, y: Seq<u32>|
            can_step(b, events, t, p, x, y) == can_step(a, events, t, p, x, y) by {
            if can_step(b, events, t, p, x, y) {
                let i: int = choose|i: int|
                    0 <= i < events.len() && events[i].top >= t && #[trigger] event_step(
                        b,
                        events[i],
                        p,
                        x,
                        y,
                    );
                assert(event_step(a, events[i], p, x, y));
            }
            if can_step(a, events, t, p, x, y) {
                let i: int = choose|i: int|
                    0 <= i < events.len() && events[i].top >= t && #[trigger] event_step(
                        a,
                        events[i],
                        p,
                        x,
                        y,
                    );
                assert(event_step(b, events[i], p, x, y));
            }
        }
        assert(step_rel(b, events, t, p) =~= step_rel(a, events, t, p));
    }
}

// ---------------------------------------------------------------------------------------------
// Images of sets that are split by their first component

/// The image of nothing, or under nothing, is empty.
pub proof fn lemma_image_empty(a: Set<Seq<u32>>, r: Set<Seq<u32>>, meta: Seq<u32>)
    ensures
        image(Set::empty(), r, meta) == Set::<Seq<u32>>::empty(),
        image(a, Set::empty(), meta) == Set::<Seq<u32>>::empty(),
        written(a, Set::empty(), meta) == Set::<Seq<u32>>::empty(),
{
    assert(image(Set::empty(), r, meta) =~= Set::<Seq<u32>>::empty());
    assert(image(a, Set::empty(), meta) =~= Set::<Seq<u32>>::empty());
    assert(written(a, Set::empty(), meta) =~= Set::<Seq<u32>>::empty());
}

/// Once every position is dealt with, the vectors stay as they are.
pub proof fn lemma_image_done(a: Set<Seq<u32>>, r: Set<Seq<u32>>, v: Seq<u32>)
    requires
        r.contains(v),
    ensures
        image(a, r, seq![]) == a,
{
    let meta: Seq<u32> = seq![];
    assert forall|y: Seq<u32>| a.contains(y) implies image(a, r, meta).contains(y) by {
        assert(fires(meta, v, y, y));
    }
    assert(image(a, r, meta) =~= a);
}

/// No vector is reached if there is no component left to touch.
pub proof fn lemma_image_short(a: Set<Seq<u32>>, r: Set<Seq<u32>>, meta: Seq<u32>)
    requires
        meta.len() > 0,
        (forall|x: Seq<u32>| #[trigger] a.contains(x) ==> x.len() == 0) || (meta[0]
            != NOT_IN_RELATION && (forall|v: Seq<u32>| #[trigger] r.contains(v) ==> v.len() == 0)),
    ensures
        image(a, r, meta) == Set::<Seq<u32>>::empty(),
{
    assert(image(a, r, meta) =~= Set::<Seq<u32>>::empty());
}

/// The image at a position that is not touched.
pub proof fn lemma_image_skip(
    v: u32,
    d: Set<Seq<u32>>,
    rest: Set<Seq<u32>>,
    r: Set<Seq<u32>>,
    meta: Seq<u32>,
)
    requires
        meta.len() > 0,
        meta[0] == NOT_IN_RELATION,
    ensures
        image(prefixed(v, d).union(rest), r, meta) == prefixed(
            v,
            image(d, r, meta.drop_first()),
        ).union(image(rest, r, meta)),
{
    let a = prefixed(v, d).union(rest);
    let right = prefixed(v, image(d, r, meta.drop_first())).union(image(rest, r, meta));
    assert forall|y: Seq<u32>| image(a, r, meta).contains(y) implies right.contains(y) by {
        let (x, t) = choose|x: Seq<u32>, t: Seq<u32>|
            a.contains(x) && r.contains(t) && #[trigger] fires(meta, t, x, y);
        if prefixed(v, d).contains(x) {
            assert(fires(meta.drop_first(), t, x.drop_first(), y.drop_first()));
        } else {
            assert(fires(meta, t, x, y));
        }
    }
    assert forall|y: Seq<u32>| right.contains(y) implies image(a, r, meta).contains(y) by {
        if image(rest, r, meta).contains(y) {
            let (x, t) = choose|x: Seq<u32>, t: Seq<u32>|
                rest.contains(x) && r.contains(t) && #[trigger] fires(meta, t, x, y);
            assert(fires(meta, t, x, y));
        } else {
            let (w, t) = choose|w: Seq<u32>, t: Seq<u32>|
                d.contains(w) && r.contains(t) && #[trigger] fires(
                    meta.drop_first(),
                    t,
                    w,
                    y.drop_first(),
                );
            lemma_cons(v, w);
            assert(fires(meta, t, cons(v, w), y));
        }
    }
    assert(image(a, r, meta) =~= right);
}

/// The image at a position that is written only.
pub proof fn lemma_image_write(
    v: u32,
    d: Set<Seq<u32>>,
    rest: Set<Seq<u32>>,
    r: Set<Seq<u32>>,
    meta: Seq<u32>,
)
    requires
        meta.len() > 0,
        meta[0] == WRITE_ONLY,
    ensures
        image(prefixed(v, d).union(rest), r, meta) == written(d, r, meta.drop_first()).union(
            image(rest, r, meta),
        ),
{
    let a = prefixed(v, d).union(rest);
    let right = written(d, r, meta.drop_first()).union(image(rest, r, meta));
    assert forall|y: Seq<u32>| image(a, r, meta).contains(y) implies right.contains(y) by {
        let (x, t) = choose|x: Seq<u32>, t: Seq<u32>|
            a.contains(x) && r.contains(t) && #[trigger] fires(meta, t, x, y);
        if prefixed(v, d).contains(x) {
            assert(fires(meta.drop_first(), t.drop_first(), x.drop_first(), y.drop_first()));
        } else {
            assert(fires(meta, t, x, y));
        }
    }
    assert forall|y: Seq<u32>| right.contains(y) implies image(a, r, meta).contains(y) by {
        if image(rest, r, meta).contains(y) {
            let (x, t) = choose|x: Seq<u32>, t: Seq<u32>|
                rest.contains(x) && r.contains(t) && #[trigger] fires(meta, t, x, y);
            assert(fires(meta, t, x, y));
        } else {
            let (w, t) = choose|w: Seq<u32>, t: Seq<u32>|
                d.contains(w) && r.contains(t) && t.len() > 0 && y.len() > 0 && y[0] == t[0]
                    && #[trigger] fires(meta.drop_first(), t.drop_first(), w, y.drop_first());
            lemma_cons(v, w);
            assert(fires(meta, t, cons(v, w), y));
        }
    }
    assert(image(a, r, meta) =~= right);
}

/// The written vectors, split by the first component of the transitions.
pub proof fn lemma_written_split(
    a: Set<Seq<u32>>,
    v: u32,
    d: Set<Seq<u32>>,
    rest: Set<Seq<u32>>,
    meta: Seq<u32>,
)
    ensures
        written(a, prefixed(v, d).union(rest), meta) == prefixed(v, image(a, d, meta)).union(
            written(a, rest, meta),
        ),
{
    let r = prefixed(v, d).union(rest);
    let left = written(a, r, meta);
    let right = prefixed(v, image(a, d, meta)).union(written(a, rest, meta));
    assert forall|y: Seq<u32>| left.contains(y) implies right.contains(y) by {
        let (x, t) = choose|x: Seq<u32>, t: Seq<u32>|
            a.contains(x) && r.contains(t) && t.len() > 0 && y.len() > 0 && y[0] == t[0]
                && #[trigger] fires(meta, t.drop_first(), x, y.drop_first());
        if prefixed(v, d).contains(t) {
            assert(fires(meta, t.drop_first(), x, y.drop_first()));
        } else {
            assert(fires(meta, t.drop_first(), x, y.drop_first()));
            assert(written(a, rest, meta).contains(y));
        }
    }
    assert forall|y: Seq<u32>| right.contains(y) implies left.contains(y) by {
        if written(a, rest, meta).contains(y) {
            let (x, t) = choose|x: Seq<u32>, t: Seq<u32>|
                a.contains(x) && rest.contains(t) && t.len() > 0 && y.len() > 0 && y[0] == t[0]
                    && #[trigger] fires(meta, t.drop_first(), x, y.drop_first());
            assert(fires(meta, t.drop_first(), x, y.drop_first()));
        } else {
            let (x, w) = choose|x: Seq<u32>, w: Seq<u32>|
                a.contains(x) && d.contains(w) && #[trigger] fires(meta, w, x, y.drop_first());
            lemma_cons(v, w);
            assert(fires(meta, cons(v, w).drop_first(), x, y.drop_first()));
        }
    }
    assert(left =~= right);
}

/// All vectors start with a value greater than `v`.
pub open spec fn starts_above(s: Set<Seq<u32>>, v: u32) -> bool {
    forall|x: Seq<u32>| #[trigger] s.contains(x) ==> x.len() > 0 && x[0] > v
}

/// The vectors that result from the values read at a position: those that `d` and the transitions
/// `rd` lead to if the value `v` was read.
pub open spec fn read_image(
    v: u32,
    d: Set<Seq<u32>>,
    rd: Set<Seq<u32>>,
    meta: Seq<u32>,
) -> Set<Seq<u32>> {
    if meta[0] == READ_ONLY {
        prefixed(v, image(d, rd, meta.drop_first()))
    } else {
        written(d, rd, meta.drop_first().drop_first())
    }
}

/// The image at a position that is read, where both the set and the transitions are split at their
/// smallest first components.
pub proof fn lemma_image_read(
    v: u32,
    d: Set<Seq<u32>>,
    rest: Set<Seq<u32>>,
    rv: u32,
    rd: Set<Seq<u32>>,
    rrest: Set<Seq<u32>>,
    meta: Seq<u32>,
)
    requires
        meta.len() > 0,
        meta[0] == READ_ONLY || (meta[0] == READ_OF_PAIR && meta.len() >= 2),
        starts_above(rest, v),
        starts_above(rrest, rv),
    ensures
        ({
            let a = prefixed(v, d).union(rest);
            let r = prefixed(rv, rd).union(rrest);
            &&& v < rv ==> image(a, r, meta) == image(rest, r, meta)
            &&& v > rv ==> image(a, r, meta) == image(a, rrest, meta)
            &&& v == rv ==> image(a, r, meta) == read_image(v, d, rd, meta).union(
                image(rest, rrest, meta),
            )
        }),
{
    let a = prefixed(v, d).union(rest);
    let r = prefixed(rv, rd).union(rrest);
    if v < rv {
        assert forall|y: Seq<u32>| image(a, r, meta).contains(y) implies image(
            rest,
            r,
            meta,
        ).contains(y) by {
            let (x, t) = choose|x: Seq<u32>, t: Seq<u32>|
                a.contains(x) && r.contains(t) && #[trigger] fires(meta, t, x, y);
            assert(fires(meta, t, x, y));
        }
        assert forall|y: Seq<u32>| image(rest, r, meta).contains(y) implies image(
            a,
            r,
            meta,
        ).contains(y) by {
            let (x, t) = choose|x: Seq<u32>, t: Seq<u32>|
                rest.contains(x) && r.contains(t) && #[trigger] fires(meta, t, x, y);
            assert(fires(meta, t, x, y));
        }
        assert(image(a, r, meta) =~= image(rest, r, meta));
    } else if v > rv {
        assert forall|y: Seq<u32>| image(a, r, meta).contains(y) implies image(
            a,
            rrest,
            meta,
        ).contains(y) by {
            let (x, t) = choose|x: Seq<u32>, t: Seq<u32>|
                a.contains(x) && r.contains(t) && #[trigger] fires(meta, t, x, y);
            assert(fires(meta, t, x, y));
        }
        assert forall|y: Seq<u32>| image(a, rrest, meta).contains(y) implies image(
            a,
            r,
            meta,
        ).contains(y) by {
            let (x, t) = choose|x: Seq<u32>, t: Seq<u32>|
                a.contains(x) && rrest.contains(t) && #[trigger] fires(meta, t, x, y);
            assert(fires(meta, t, x, y));
        }
        assert(image(a, r, meta) =~= image(a, rrest, meta));
    } else {
        let right = read_image(v, d, rd, meta).union(image(rest, rrest, meta));
        assert forall|y: Seq<u32>| image(a, r, meta).contains(y) implies right.contains(y) by {
            let (x, t) = choose|x: Seq<u32>, t: Seq<u32>|
                a.contains(x) && r.contains(t) && #[trigger] fires(meta, t, x, y);
            if x[0] == v {
                if meta[0] == READ_ONLY {
                    assert(fires(
                        meta.drop_first(),
                        t.drop_first(),
                        x.drop_first(),
                        y.drop_first(),
                    ));
                } else {
                    let u = t.drop_first();
                    assert(u[0] == t[1]);
                    assert(fires(
                        meta.drop_first().drop_first(),
                        u.drop_first(),
                        x.drop_first(),
                        y.drop_first(),
                    ));
                    assert(written(d, rd, meta.drop_first().drop_first()).contains(y));
                }
            } else {
                assert(fires(meta, t, x, y));
                assert(image(rest, rrest, meta).contains(y));
            }
        }
        assert forall|y: Seq<u32>| right.contains(y) implies image(a, r, meta).contains(y) by {
            if image(rest, rrest, meta).contains(y) {
                let (x, t) = choose|x: Seq<u32>, t: Seq<u32>|
                    rest.contains(x) && rrest.contains(t) && #[trigger] fires(meta, t, x, y);
                assert(fires(meta, t, x, y));
            } else if meta[0] == READ_ONLY {
                let (w, u) = choose|w: Seq<u32>, u: Seq<u32>|
                    d.contains(w) && rd.contains(u) && #[trigger] fires(
                        meta.drop_first(),
                        u,
                        w,
                        y.drop_first(),
                    );
                lemma_cons(v, w);
                lemma_cons(v, u);
                assert(fires(meta, cons(v, u), cons(v, w), y));
            } else {
                let m = meta.drop_first().drop_first();
                let (w, u) = choose|w: Seq<u32>, u: Seq<u32>|
                    d.contains(w) && rd.contains(u) && u.len() > 0 && y.len() > 0 && y[0] == u[0]
                        && #[trigger] fires(m, u.drop_first(), w, y.drop_first());
                lemma_cons(v, w);
                lemma_cons(v, u);
                assert(cons(v, u)[1] == u[0]);
                assert(fires(meta, cons(v, u), cons(v, w), y));
            }
        }
        assert(image(a, r, meta) =~= right);
    }
}

/// What the vectors of `s` that start with `v` continue with.
pub open spec fn tails(s: Set<Seq<u32>>, v: u32) -> Set<Seq<u32>> {
    Set::new(|w: Seq<u32>| s.contains(cons(v, w)))
}

/// The image at a position that is read, where all vectors of the set start with the same value.
pub proof fn lemma_image_single(v: u32, d: Set<Seq<u32>>, r: Set<Seq<u32>>, meta: Seq<u32>)
    requires
        meta.len() > 0,
        meta[0] == READ_ONLY || (meta[0] == READ_OF_PAIR && meta.len() >= 2),
    ensures
        image(prefixed(v, d), r, meta) == read_image(v, d, tails(r, v), meta),
{
    let a = prefixed(v, d);
    let right = read_image(v, d, tails(r, v), meta);
    assert forall|y: Seq<u32>| image(a, r, meta).contains(y) implies right.contains(y) by {
        let (x, t) = choose|x: Seq<u32>, t: Seq<u32>|
            a.contains(x) && r.contains(t) && #[trigger] fires(meta, t, x, y);
        lemma_uncons(t);
        let u = t.drop_first();
        assert(tails(r, v).contains(u));
        if meta[0] == READ_ONLY {
            assert(fires(meta.drop_first(), u, x.drop_first(), y.drop_first()));
        } else {
            assert(u[0] == t[1]);
            assert(fires(
                meta.drop_first().drop_first(),
                u.drop_first(),
                x.drop_first(),
                y.drop_first(),
            ));
        }
    }
    assert forall|y: Seq<u32>| right.contains(y) implies image(a, r, meta).contains(y) by {
        if meta[0] == READ_ONLY {
            let (w, u) = choose|w: Seq<u32>, u: Seq<u32>|
                d.contains(w) && tails(r, v).contains(u) && #[trigger] fires(
                    meta.drop_first(),
                    u,
                    w,
                    y.drop_first(),
                );
            lemma_cons(v, w);
            lemma_cons(v, u);
            assert(fires(meta, cons(v, u), cons(v, w), y));
        } else {
            let m = meta.drop_first().drop_first();
            let (w, u) = choose|w: Seq<u32>, u: Seq<u32>|
                d.contains(w) && tails(r, v).contains(u) && u.len() > 0 && y.len() > 0 && y[0]
                    == u[0] && #[trigger] fires(m, u.drop_first(), w, y.drop_first());
            lemma_cons(v, w);
            lemma_cons(v, u);
            assert(cons(v, u)[1] == u[0]);
            assert(fires(meta, cons(v, u), cons(v, w), y));
        }
    }
    assert(image(a, r, meta) =~= right);
}

/// The length of the vectors of images.
pub proof fn lemma_image_len(a: Set<Seq<u32>>, r: Set<Seq<u32>>, meta: Seq<u32>, h: nat)
    requires
        forall|x: Seq<u32>| #[trigger] a.contains(x) ==> x.len() == h,
    ensures
        forall|y: Seq<u32>| #[trigger] image(a, r, meta).contains(y) ==> y.len() == h,
        forall|y: Seq<u32>| #[trigger] written(a, r, meta).contains(y) ==> y.len() == h + 1,
{
    assert forall|y: Seq<u32>| #[trigger] image(a, r, meta).contains(y) implies y.len() == h by {
        let (x, t) = choose|x: Seq<u32>, t: Seq<u32>|
            a.contains(x) && r.contains(t) && #[trigger] fires(meta, t, x, y);
        lemma_fires_len(meta, t, x, y);
    }
    assert forall|y: Seq<u32>| #[trigger] written(a, r, meta).contains(y) implies y.len() == h
        + 1 by {
        let (x, t) = choose|x: Seq<u32>, t: Seq<u32>|
            a.contains(x) && r.contains(t) && t.len() > 0 && y.len() > 0 && y[0] == t[0]
                && #[trigger] fires(meta, t.drop_first(), x, y.drop_first());
        lemma_fires_len(meta, t.drop_first(), x, y.drop_first());
    }
}

// ---------------------------------------------------------------------------------------------
// Steps

/// A transition keeps the length of the vector.
pub proof fn lemma_fires_len(meta: Seq<u32>, r: Seq<u32>, x: Seq<u32>, y: Seq<u32>)
    requires
        fires(meta, r, x, y),
    ensures
        x.len() == y.len(),
    decreases meta.len(),
{
    if meta.len() > 0 {
        if meta[0] == NOT_IN_RELATION {
            lemma_fires_len(meta.drop_first(), r, x.drop_first(), y.drop_first());
        } else if meta[0] == READ_ONLY || meta[0] == WRITE_ONLY {
            lemma_fires_len(meta.drop_first(), r.drop_first(), x.drop_first(), y.drop_first());
        } else {
            lemma_fires_len(
                meta.drop_first().drop_first(),
                r.drop_first().drop_first(),
                x.drop_first(),
                y.drop_first(),
            );
        }
    }
}

/// An event that starts below position `p` keeps the component at `p`, and acts on the rest.
pub proof fn lemma_event_tail(
    nodes: Seq<LDDNode>,
    event: SaturationEvent,
    p: int,
    x: Seq<u32>,
    y: Seq<u32>,
)
    requires
        event.top > p,
    ensures
        event_step(nodes, event, p, x, y) <==> x.len() > 0 && y.len() > 0 && x[0] == y[0]
            && event_step(nodes, event, p + 1, x.drop_first(), y.drop_first()),
{
    let k = event.top - p;
    if x.len() >= k && y.len() >= k {
        let x1 = x.drop_first();
        let y1 = y.drop_first();
        assert(x1.skip(k - 1) =~= x.skip(k));
        assert(y1.skip(k - 1) =~= y.skip(k));
        if x.take(k) == y.take(k) {
            assert(x.take(k)[0] == y.take(k)[0]);
            assert forall|i: int| 0 <= i < k - 1 implies x1[i] == y1[i] by {
                assert(x.take(k)[i + 1] == y.take(k)[i + 1]);
            }
            assert(x1.take(k - 1) =~= y1.take(k - 1));
        }
        if x[0] == y[0] && x1.take(k - 1) == y1.take(k - 1) {
            assert forall|i: int| 0 <= i < k implies x[i] == y[i] by {
                if i > 0 {
                    assert(x1.take(k - 1)[i - 1] == y1.take(k - 1)[i - 1]);
                }
            }
            assert(x.take(k) =~= y.take(k));
        }
    }
}

/// Events that start below position `p` keep the component at `p`, and act on the rest.
pub proof fn lemma_step_tail(
    nodes: Seq<LDDNode>,
    events: Seq<SaturationEvent>,
    p: int,
    x: Seq<u32>,
    y: Seq<u32>,
)
    ensures
        can_step(nodes, events, p + 1, p, x, y) <==> x.len() > 0 && y.len() > 0 && x[0] == y[0]
            && can_step(nodes, events, p + 1, p + 1, x.drop_first(), y.drop_first()),
{
    let x1 = x.drop_first();
    let y1 = y.drop_first();
    if can_step(nodes, events, p + 1, p, x, y) {
        let i: int = choose|i: int|
            0 <= i < events.len() && events[i].top >= p + 1 && #[trigger] event_step(
                nodes,
                events[i],
                p,
                x,
                y,
            );
        lemma_event_tail(nodes, events[i], p, x, y);
        assert(event_step(nodes, events[i], p + 1, x1, y1));
    }
    if x.len() > 0 && y.len() > 0 && x[0] == y[0] && can_step(
        nodes,
        events,
        p + 1,
        p + 1,
        x1,
        y1,
    ) {
        let i: int = choose|i: int|
            0 <= i < events.len() && events[i].top >= p + 1 && #[trigger] event_step(
                nodes,
                events[i],
                p + 1,
                x1,
                y1,
            );
        lemma_event_tail(nodes, events[i], p, x, y);
        assert(event_step(nodes, events[i], p, x, y));
    }
}

/// An event that starts at position `p` leads to the image of the set.
pub proof fn lemma_event_top(
    nodes: Seq<LDDNode>,
    event: SaturationEvent,
    p: int,
    x: Seq<u32>,
    y: Seq<u32>,
    a: Set<Seq<u32>>,
)
    requires
        event.top == p,
        event_step(nodes, event, p, x, y),
        a.contains(x),
    ensures
        image(
            a,
            vectors(nodes, event.relation),
            meta_of(nodes, event.meta_at_top),
        ).contains(y),
{
    assert(x.skip(0) =~= x);
    assert(y.skip(0) =~= y);
    let r = choose|r: Seq<u32>|
        vectors(nodes, event.relation).contains(r) && #[trigger] fires(
            meta_of(nodes, event.meta_at_top),
            r,
            x.skip(0),
            y.skip(0),
        );
    assert(fires(meta_of(nodes, event.meta_at_top), r, x, y));
}

/// The image of a set under an event that starts at position `p` is reached by a step.
pub proof fn lemma_image_step(
    nodes: Seq<LDDNode>,
    events: Seq<SaturationEvent>,
    i: int,
    p: int,
    a: Set<Seq<u32>>,
    y: Seq<u32>,
) -> (x: Seq<u32>)
    requires
        0 <= i < events.len(),
        events[i].top == p,
        image(
            a,
            vectors(nodes, events[i].relation),
            meta_of(nodes, events[i].meta_at_top),
        ).contains(y),
    ensures
        a.contains(x),
        can_step(nodes, events, p, p, x, y),
{
    let r = vectors(nodes, events[i].relation);
    let meta = meta_of(nodes, events[i].meta_at_top);
    let (x, t) = choose|x: Seq<u32>, t: Seq<u32>|
        a.contains(x) && r.contains(t) && #[trigger] fires(meta, t, x, y);
    assert(x.skip(0) =~= x);
    assert(y.skip(0) =~= y);
    assert(x.take(0) =~= y.take(0));
    assert(fires(meta, t, x.skip(0), y.skip(0)));
    assert(event_step(nodes, events[i], p, x, y));
    x
}

/// Steps keep the length of the vector.
pub proof fn lemma_step_len(
    nodes: Seq<LDDNode>,
    events: Seq<SaturationEvent>,
    t: int,
    p: int,
    x: Seq<u32>,
    y: Seq<u32>,
)
    requires
        can_step(nodes, events, t, p, x, y),
    ensures
        x.len() == y.len(),
{
    let i: int = choose|i: int|
        0 <= i < events.len() && events[i].top >= t && #[trigger] event_step(
            nodes,
            events[i],
            p,
            x,
            y,
        );
    let k = events[i].top - p;
    let r = choose|r: Seq<u32>|
        vectors(nodes, events[i].relation).contains(r) && #[trigger] fires(
            meta_of(nodes, events[i].meta_at_top),
            r,
            x.skip(k),
            y.skip(k),
        );
    lemma_fires_len(meta_of(nodes, events[i].meta_at_top), r, x.skip(k), y.skip(k));
}

/// Closing the continuations of a value closes the vectors that start with it under the events that
/// start below.
pub proof fn lemma_reachable_prefixed(
    nodes: Seq<LDDNode>,
    events: Seq<SaturationEvent>,
    p: int,
    v: u32,
    s: Set<Seq<u32>>,
)
    ensures
        reachable(nodes, events, p + 1, p, prefixed(v, s)) == prefixed(
            v,
            reachable(nodes, events, p + 1, p + 1, s),
        ),
{
    let outer = step_rel(nodes, events, p + 1, p);
    let inner = step_rel(nodes, events, p + 1, p + 1);
    let c = closure(outer, prefixed(v, s));
    let d = closure(inner, s);
    // prefixed(v, d) is closed, hence it contains c
    lemma_closure_closed(inner, s);
    assert forall|x: Seq<u32>, y: Seq<u32>|
        prefixed(v, d).contains(x) && #[trigger] outer(x, y) implies prefixed(v, d).contains(y) by {
        lemma_step_tail(nodes, events, p, x, y);
        assert(inner(x.drop_first(), y.drop_first()));
    }
    lemma_closure_least(outer, prefixed(v, s), prefixed(v, d));
    // the continuations of v in c are closed, hence they contain d
    lemma_closure_closed(outer, prefixed(v, s));
    let tails = Set::new(|w: Seq<u32>| c.contains(cons(v, w)));
    assert forall|w: Seq<u32>| s.contains(w) implies tails.contains(w) by {
        lemma_cons(v, w);
        assert(prefixed(v, s).contains(cons(v, w)));
    }
    assert forall|x: Seq<u32>, y: Seq<u32>|
        tails.contains(x) && #[trigger] inner(x, y) implies tails.contains(y) by {
        lemma_cons(v, x);
        lemma_cons(v, y);
        lemma_step_tail(nodes, events, p, cons(v, x), cons(v, y));
        assert(outer(cons(v, x), cons(v, y)));
    }
    lemma_closure_least(inner, s, tails);
    assert forall|x: Seq<u32>| prefixed(v, d).contains(x) implies c.contains(x) by {
        assert(tails.contains(x.drop_first()));
        lemma_uncons(x);
    }
    assert(c =~= prefixed(v, d));
}

/// The continuations of a value in a saturated set are saturated, and so is the rest of the set.
pub proof fn lemma_saturated_parts(
    nodes: Seq<LDDNode>,
    events: Seq<SaturationEvent>,
    p: int,
    v: u32,
    d: Set<Seq<u32>>,
    rest: Set<Seq<u32>>,
)
    requires
        saturated(nodes, events, p + 1, p, prefixed(v, d).union(rest)),
        starts_above(rest, v),
    ensures
        saturated(nodes, events, p + 1, p + 1, d),
        saturated(nodes, events, p + 1, p, rest),
{
    let outer = step_rel(nodes, events, p + 1, p);
    let inner = step_rel(nodes, events, p + 1, p + 1);
    let a = prefixed(v, d).union(rest);
    assert forall|x: Seq<u32>, y: Seq<u32>| d.contains(x) && #[trigger] inner(x, y) implies d.contains(
        y,
    ) by {
        lemma_cons(v, x);
        lemma_cons(v, y);
        lemma_step_tail(nodes, events, p, cons(v, x), cons(v, y));
        assert(outer(cons(v, x), cons(v, y)));
        assert(a.contains(cons(v, x)));
        assert(a.contains(cons(v, y)));
    }
    assert forall|x: Seq<u32>, y: Seq<u32>|
        rest.contains(x) && #[trigger] outer(x, y) implies rest.contains(y) by {
        lemma_step_tail(nodes, events, p, x, y);
        assert(a.contains(x));
        assert(a.contains(y));
    }
}

/// Vectors that start with a value and continue with a saturated set are saturated with respect to
/// the events that start below.
pub proof fn lemma_saturated_prefixed(
    nodes: Seq<LDDNode>,
    events: Seq<SaturationEvent>,
    p: int,
    v: u32,
    d: Set<Seq<u32>>,
)
    requires
        saturated(nodes, events, p + 1, p + 1, d),
    ensures
        saturated(nodes, events, p + 1, p, prefixed(v, d)),
{
    lemma_reachable_prefixed(nodes, events, p, v, d);
    lemma_closure_fixed(step_rel(nodes, events, p + 1, p + 1), d);
    lemma_closure_closed(step_rel(nodes, events, p + 1, p), prefixed(v, d));
}

} // verus!
