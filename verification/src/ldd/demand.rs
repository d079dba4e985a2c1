//! What has to be built on the way when events are fired and sets are saturated.
//!
//! Saturation consists of tasks. A task has parts, which are tasks themselves, and it builds sets
//! that need an edge. The operations run out of memory only if one of these sets has none.

use super::accumulator::lemma_step_weaken;
use super::closure::{closure, lemma_closure_closed, lemma_closure_fixed, lemma_closure_least};
use super::firing::{
    can_step, event_known, event_ok, events_known, events_ok, fires, image, lemma_events_extends,
    lemma_image_step, lemma_meta_extends, lemma_meta_inner, lemma_step_tail, meta_of, meta_ok,
    reachable, starts_above, step_rel, tails, written, SaturationEvent, NOT_IN_RELATION,
    READ_OF_PAIR, READ_ONLY, WRITE_ONLY,
};
use super::semantics::{
    absent, cons, empty, extends, is_inner, is_ldd, lemma_cons, lemma_extends, lemma_inner,
    lemma_terminals, lemma_uncons, node_of, prefixed, valid, vectors, LDDEdge, LDDNode,
};
use vstd::prelude::*;

verus! {

/// What an event does: its transitions and how the positions from `top` on take part.
pub struct Effect {
    /// The first position that is touched.
    pub top: int,
    /// The transitions.
    pub relation: Set<Seq<u32>>,
    /// How the positions take part.
    pub meta: Seq<u32>,
}

/// What a list of events does.
pub struct Effects {
    /// The steps by the events whose `top` is at least the first number, between vectors that start
    /// at the position that is the second number.
    pub steps: spec_fn(int, int) -> spec_fn(Seq<u32>, Seq<u32>) -> bool,
    /// What each of the events does.
    pub events: Seq<Effect>,
}

impl Effects {
    /// The smallest superset of `s` that is closed under every event whose `top` is at least `t`,
    /// where the vectors start at position `p`.
    pub open spec fn reach(self, t: int, p: int, s: Set<Seq<u32>>) -> Set<Seq<u32>> {
        closure((self.steps)(t, p), s)
    }

    /// What firing event number `e` out of the value `i` with the continuations `a` at position `p`
    /// leads to, together with the events below.
    pub open spec fn fired(self, p: int, i: u32, a: Set<Seq<u32>>, e: int) -> Set<Seq<u32>> {
        self.reach(
            p + 1,
            p,
            image(prefixed(i, a), self.events[e].relation, self.events[e].meta),
        )
    }

    /// Event number `e` starts at position `p`.
    pub open spec fn starts(self, e: int, p: int) -> bool {
        0 <= e < self.events.len() && self.events[e].top == p
    }
}

/// What an event of a diagram does.
pub open spec fn effect(nodes: Seq<LDDNode>, event: SaturationEvent) -> Effect {
    Effect {
        top: event.top as int,
        relation: vectors(nodes, event.relation),
        meta: meta_of(nodes, event.meta_at_top),
    }
}

/// What the events of a diagram do.
pub open spec fn effects(nodes: Seq<LDDNode>, events: Seq<SaturationEvent>) -> Effects {
    Effects {
        steps: |t: int, p: int| step_rel(nodes, events, t, p),
        events: Seq::new(events.len(), |e: int| effect(nodes, events[e])),
    }
}

/// The set has a vector.
pub open spec fn inhabited(s: Set<Seq<u32>>) -> bool {
    exists|w: Seq<u32>| #[trigger] s.contains(w)
}

/// The vectors of `s` that start with a value greater than `v`.
pub open spec fn beyond(s: Set<Seq<u32>>, v: u32) -> Set<Seq<u32>> {
    Set::new(|x: Seq<u32>| s.contains(x) && x.len() > 0 && x[0] > v)
}

/// A part of the work that saturation consists of.
pub enum Task {
    /// Saturate the set `s`, which sits at position `p`.
    Saturate { p: int, s: Set<Seq<u32>> },
    /// Close the vectors `held` under the events that start at position `p`. They are closed under
    /// those that start below.
    Level { p: int, held: Set<Seq<u32>> },
    /// Unite what the events that start at position `p` lead to from the value `i` with the
    /// continuations `a` into the vectors `held`.
    Value { p: int, held: Set<Seq<u32>>, i: u32, a: Set<Seq<u32>> },
    /// Fire an event out of the value `i` with the continuations `a` at position `p`.
    Top { p: int, i: u32, a: Set<Seq<u32>>, rel: Set<Seq<u32>>, meta: Seq<u32> },
    /// Fire the rest of an event on `a` for every value that the event writes at position `p`.
    Values { p: int, a: Set<Seq<u32>>, rel: Set<Seq<u32>>, meta: Seq<u32> },
    /// Fire a part of an event on `a`, which sits at position `p`, and saturate the result.
    Fire { p: int, a: Set<Seq<u32>>, rel: Set<Seq<u32>>, meta: Seq<u32> },
    /// Fire a part of an event on `a`, which sits at position `p`, such that the result is closed
    /// under the events that start below.
    Step { p: int, a: Set<Seq<u32>>, rel: Set<Seq<u32>>, meta: Seq<u32> },
    /// Build the vectors that start with a value that an event writes at position `p` and continue
    /// with what the rest of the event makes of `a`.
    Write { p: int, a: Set<Seq<u32>>, rel: Set<Seq<u32>>, meta: Seq<u32> },
}

/// The position is read.
pub open spec fn is_read(meta: Seq<u32>) -> bool {
    meta[0] == READ_ONLY || meta[0] == READ_OF_PAIR
}

/// Saturating a set takes saturating the continuations of each of its values, and closing the result
/// under the events that start at its position.
pub open spec fn part_of_saturate(fx: Effects, p: int, s: Set<Seq<u32>>, part: Task) -> bool {
    ||| part == (Task::Level { p, held: fx.reach(p + 1, p, s) })
    ||| exists|v: u32|
        inhabited(#[trigger] tails(s, v)) && part == (Task::Saturate { p: p + 1, s: tails(s, v) })
}

/// Closing a level takes firing out of its values.
pub open spec fn part_of_level(p: int, held: Set<Seq<u32>>, part: Task) -> bool {
    exists|i: u32|
        inhabited(#[trigger] tails(held, i)) && part == (Task::Value {
            p,
            held,
            i,
            a: tails(held, i),
        })
}

/// The vectors that event number `e` adds to those that start with the value `j`.
pub open spec fn added(
    fx: Effects,
    p: int,
    i: u32,
    a: Set<Seq<u32>>,
    e: int,
    j: u32,
) -> Set<Seq<u32>> {
    tails(fx.fired(p, i, a, e), j)
}

/// Firing out of a value takes firing each event that starts at the position, and uniting what it
/// leads to into the level.
pub open spec fn part_of_value(
    fx: Effects,
    p: int,
    held: Set<Seq<u32>>,
    i: u32,
    a: Set<Seq<u32>>,
    part: Task,
) -> bool {
    ||| part == (Task::Level { p, held })
    ||| exists|e: int| #[trigger]
        fx.starts(e, p) && part == (Task::Top {
            p,
            i,
            a,
            rel: fx.events[e].relation,
            meta: fx.events[e].meta,
        })
    ||| exists|e: int, j: u32|
        fx.starts(e, p) && inhabited(#[trigger] added(fx, p, i, a, e, j)) && part == (Task::Value {
            p,
            held: held.union(prefixed(j, added(fx, p, i, a, e, j))),
            i,
            a,
        })
}

/// Firing an event out of a value takes firing the rest of it on the continuations.
pub open spec fn part_of_top(
    p: int,
    i: u32,
    a: Set<Seq<u32>>,
    rel: Set<Seq<u32>>,
    meta: Seq<u32>,
    part: Task,
) -> bool {
    if meta[0] == WRITE_ONLY {
        part == (Task::Values { p, a, rel, meta: meta.drop_first() })
    } else {
        &&& inhabited(tails(rel, i))
        &&& part == if meta[0] == READ_ONLY {
            Task::Fire { p: p + 1, a, rel: tails(rel, i), meta: meta.drop_first() }
        } else {
            Task::Values { p, a, rel: tails(rel, i), meta: meta.drop_first().drop_first() }
        }
    }
}

/// The rest of an event is fired for every value that is written.
pub open spec fn part_of_values(
    p: int,
    a: Set<Seq<u32>>,
    rel: Set<Seq<u32>>,
    meta: Seq<u32>,
    part: Task,
) -> bool {
    exists|v: u32|
        inhabited(#[trigger] tails(rel, v)) && part == (Task::Fire {
            p: p + 1,
            a,
            rel: tails(rel, v),
            meta,
        })
}

/// Unless an operand decides it, firing takes a step, and saturating its result.
pub open spec fn part_of_fire(
    fx: Effects,
    p: int,
    a: Set<Seq<u32>>,
    rel: Set<Seq<u32>>,
    meta: Seq<u32>,
    part: Task,
) -> bool {
    &&& inhabited(a)
    &&& inhabited(rel)
    &&& meta.len() > 0
    &&& part == (Task::Step { p, a, rel, meta }) || part == (Task::Saturate {
        p,
        s: fx.reach(p + 1, p, image(a, rel, meta)),
    })
}

/// `part` fires the rest of the event on the continuations of the value `v`.
pub open spec fn step_continues(
    p: int,
    a: Set<Seq<u32>>,
    rel: Set<Seq<u32>>,
    meta: Seq<u32>,
    v: u32,
    part: Task,
) -> bool {
    let rest = meta.drop_first();
    &&& is_read(meta) ==> inhabited(tails(rel, v))
    &&& part == if meta[0] == NOT_IN_RELATION {
        Task::Fire { p: p + 1, a: tails(a, v), rel, meta: rest }
    } else if meta[0] == WRITE_ONLY {
        Task::Write { p, a: tails(a, v), rel, meta: rest }
    } else if meta[0] == READ_ONLY {
        Task::Fire { p: p + 1, a: tails(a, v), rel: tails(rel, v), meta: rest }
    } else {
        Task::Write { p, a: tails(a, v), rel: tails(rel, v), meta: rest.drop_first() }
    }
}

/// A step takes firing the rest of the event on the continuations of a value, and a step for the
/// greater values.
pub open spec fn part_of_step(
    p: int,
    a: Set<Seq<u32>>,
    rel: Set<Seq<u32>>,
    meta: Seq<u32>,
    part: Task,
) -> bool {
    &&& meta.len() > 0
    &&& {
        ||| exists|v: u32| part == (Task::Step { p, a: #[trigger] beyond(a, v), rel, meta })
        ||| is_read(meta) && exists|v: u32|
            part == (Task::Step { p, a, rel: #[trigger] beyond(rel, v), meta })
        ||| exists|v: u32|
            inhabited(#[trigger] tails(a, v)) && step_continues(p, a, rel, meta, v, part)
    }
}

/// The vectors for a written value take firing the rest of the event; the greater values are the
/// rest of the task.
pub open spec fn part_of_write(
    p: int,
    a: Set<Seq<u32>>,
    rel: Set<Seq<u32>>,
    meta: Seq<u32>,
    part: Task,
) -> bool {
    ||| part_of_values(p, a, rel, meta, part)
    ||| exists|v: u32| part == (Task::Write { p, a, rel: #[trigger] beyond(rel, v), meta })
}

/// `part` is one of the tasks that `task` consists of.
#[verifier::opaque]
pub open spec fn is_part(fx: Effects, task: Task, part: Task) -> bool {
    match task {
        Task::Saturate { p, s } => part_of_saturate(fx, p, s, part),
        Task::Level { p, held } => part_of_level(p, held, part),
        Task::Value { p, held, i, a } => part_of_value(fx, p, held, i, a, part),
        Task::Top { p, i, a, rel, meta } => part_of_top(p, i, a, rel, meta, part),
        Task::Values { p, a, rel, meta } => part_of_values(p, a, rel, meta, part),
        Task::Fire { p, a, rel, meta } => part_of_fire(fx, p, a, rel, meta, part),
        Task::Step { p, a, rel, meta } => part_of_step(p, a, rel, meta, part),
        Task::Write { p, a, rel, meta } => part_of_write(p, a, rel, meta, part),
    }
}

/// The task itself puts the set `s` together: its result, or the new continuations of a value.
#[verifier::opaque]
pub open spec fn builds(fx: Effects, task: Task, s: Set<Seq<u32>>) -> bool {
    match task {
        Task::Saturate { p, s: t } => s == fx.reach(p, p, t),
        Task::Value { p, held, i, a } => exists|e: int, j: u32|
            fx.starts(e, p) && inhabited(#[trigger] added(fx, p, i, a, e, j)) && inhabited(
                tails(held, j),
            ) && s == tails(held, j).union(added(fx, p, i, a, e, j)),
        Task::Step { p, a, rel, meta } => s == fx.reach(p + 1, p, image(a, rel, meta)),
        Task::Write { p, a, rel, meta } => s == fx.reach(p + 1, p, written(a, rel, meta)),
        _ => false,
    }
}

/// The tasks that `task` consists of, their parts, and so on.
#[verifier::opaque]
pub open spec fn involves(fx: Effects, task: Task, sub: Task) -> bool {
    closure(|x: Task, y: Task| is_part(fx, x, y), Set::empty().insert(task)).contains(sub)
}

/// One of the sets that have to be built for the task has no edge.
#[verifier::opaque]
pub open spec fn lacks(nodes: Seq<LDDNode>, fx: Effects, task: Task) -> bool {
    exists|sub: Task, s: Set<Seq<u32>>|
        involves(fx, task, sub) && #[trigger] builds(fx, sub, s) && absent(nodes, s)
}

/// The effects of events stay the same when nodes are added.
pub proof fn lemma_effects_extends(
    a: Seq<LDDNode>,
    b: Seq<LDDNode>,
    events: Seq<SaturationEvent>,
)
    requires
        is_ldd(a),
        extends(a, b),
        events_known(a, events),
    ensures
        effects(b, events) == effects(a, events),
{
    lemma_extends(a, b);
    lemma_events_extends(a, b, events);
    let fa = effects(a, events);
    let fb = effects(b, events);
    assert forall|e: int| 0 <= e < events.len() implies fb.events[e] == fa.events[e] by {
        assert(event_known(a, events[e]));
        lemma_meta_extends(a, b, events[e].meta_at_top);
    }
    assert(fb.events =~= fa.events);
    assert forall|t: int, p: int| #[trigger] (fb.steps)(t, p) == (fa.steps)(t, p) by {
        assert(step_rel(b, events, t, p) == step_rel(a, events, t, p));
    }
    assert(fb.steps =~= fa.steps);
}

/// A task involves itself, its parts, and what these involve.
pub proof fn lemma_involves(fx: Effects, task: Task)
    ensures
        involves(fx, task, task),
        forall|x: Task, y: Task|
            involves(fx, task, x) && #[trigger] is_part(fx, x, y) ==> involves(fx, task, y),
{
    reveal(involves);
    let rel = |x: Task, y: Task| is_part(fx, x, y);
    let start = Set::empty().insert(task);
    lemma_closure_closed(rel, start);
    assert(start.contains(task));
    assert forall|x: Task, y: Task|
        involves(fx, task, x) && #[trigger] is_part(fx, x, y) implies involves(fx, task, y) by {
        assert(rel(x, y));
    }
}

/// Whatever holds of a task and is passed on to parts holds of all tasks that it involves.
pub proof fn lemma_involves_only(fx: Effects, task: Task, all: Set<Task>, sub: Task)
    requires
        all.contains(task),
        forall|x: Task, y: Task| all.contains(x) && #[trigger] is_part(fx, x, y) ==> all.contains(y),
        involves(fx, task, sub),
    ensures
        all.contains(sub),
{
    reveal(involves);
    let rel = |x: Task, y: Task| is_part(fx, x, y);
    lemma_closure_least(rel, Set::empty().insert(task), all);
}

/// What is involved by something involved is involved.
pub proof fn lemma_involves_trans(fx: Effects, x: Task, y: Task, z: Task)
    requires
        involves(fx, x, y),
        involves(fx, y, z),
    ensures
        involves(fx, x, z),
{
    lemma_involves(fx, x);
    let all = Set::new(|t: Task| involves(fx, x, t));
    lemma_involves_only(fx, y, all, z);
}

/// If a set is missing for a part, it is missing for the whole.
pub proof fn lemma_lacks(nodes: Seq<LDDNode>, fx: Effects, task: Task, sub: Task)
    requires
        involves(fx, task, sub),
        lacks(nodes, fx, sub),
    ensures
        lacks(nodes, fx, task),
{
    reveal(lacks);
    let (t, s) = choose|t: Task, s: Set<Seq<u32>>|
        involves(fx, sub, t) && #[trigger] builds(fx, t, s) && absent(nodes, s);
    lemma_involves_trans(fx, task, sub, t);
}

/// If a set that the task itself builds is missing, it is missing for the task.
pub proof fn lemma_lacks_built(nodes: Seq<LDDNode>, fx: Effects, task: Task, s: Set<Seq<u32>>)
    requires
        builds(fx, task, s),
        absent(nodes, s),
    ensures
        lacks(nodes, fx, task),
{
    reveal(lacks);
    lemma_involves(fx, task);
}

/// The parts of a set whose smallest first component is `v`.
pub proof fn lemma_split(v: u32, d: Set<Seq<u32>>, rest: Set<Seq<u32>>)
    requires
        starts_above(rest, v),
    ensures
        tails(prefixed(v, d).union(rest), v) == d,
        beyond(prefixed(v, d).union(rest), v) == rest,
{
    let s = prefixed(v, d).union(rest);
    assert forall|w: Seq<u32>| tails(s, v).contains(w) == d.contains(w) by {
        lemma_cons(v, w);
    }
    assert(tails(s, v) =~= d);
    assert(beyond(s, v) =~= rest);
}

/// Both sets have the same vectors among those that start with `v` or a greater value.
pub open spec fn agree_from(s: Set<Seq<u32>>, t: Set<Seq<u32>>, v: u32) -> bool {
    forall|x: Seq<u32>|
        #![trigger s.contains(x)]
        #![trigger t.contains(x)]
        x.len() > 0 && x[0] >= v ==> s.contains(x) == t.contains(x)
}

/// The parts of the vectors of `whole` that start with `v` or a greater value.
pub proof fn lemma_agree_split(v: u32, d: Set<Seq<u32>>, rest: Set<Seq<u32>>, whole: Set<Seq<u32>>)
    requires
        starts_above(rest, v),
        agree_from(prefixed(v, d).union(rest), whole, v),
    ensures
        tails(whole, v) == d,
        forall|w: u32| w > v ==> #[trigger] agree_from(rest, whole, w),
{
    let s = prefixed(v, d).union(rest);
    lemma_split(v, d, rest);
    assert forall|w: Seq<u32>| tails(whole, v).contains(w) == d.contains(w) by {
        lemma_cons(v, w);
        assert(tails(s, v).contains(w) == s.contains(cons(v, w)));
    }
    assert(tails(whole, v) =~= d);
    assert forall|w: u32| w > v implies #[trigger] agree_from(rest, whole, w) by {
        assert forall|x: Seq<u32>| x.len() > 0 && x[0] >= w implies rest.contains(x)
            == whole.contains(x) by {
            assert(s.contains(x) == whole.contains(x));
        }
    }
}

/// The parts of a [`Task::Write`].
pub proof fn lemma_demand_written(
    fx: Effects,
    p: int,
    a: Set<Seq<u32>>,
    v: u32,
    d: Set<Seq<u32>>,
    rest: Set<Seq<u32>>,
    meta: Seq<u32>,
)
    requires
        starts_above(rest, v),
        inhabited(d),
    ensures
        ({
            let rel = prefixed(v, d).union(rest);
            let task = Task::Write { p, a, rel, meta };
            &&& involves(fx, task, Task::Fire { p: p + 1, a, rel: d, meta })
            &&& involves(fx, task, Task::Write { p, a, rel: rest, meta })
            &&& builds(fx, task, fx.reach(p + 1, p, written(a, rel, meta)))
        }),
{
    reveal(is_part);
    reveal(builds);
    lemma_split(v, d, rest);
    let rel = prefixed(v, d).union(rest);
    let task = Task::Write { p, a, rel, meta };
    lemma_involves(fx, task);
    assert(is_part(fx, task, Task::Fire { p: p + 1, a, rel: tails(rel, v), meta }));
    assert(is_part(fx, task, Task::Write { p, a, rel: beyond(rel, v), meta }));
}

/// The parts of a [`Task::Values`].
pub proof fn lemma_demand_values(
    fx: Effects,
    p: int,
    a: Set<Seq<u32>>,
    rel: Set<Seq<u32>>,
    meta: Seq<u32>,
    v: u32,
)
    requires
        inhabited(tails(rel, v)),
    ensures
        involves(
            fx,
            Task::Values { p, a, rel, meta },
            Task::Fire { p: p + 1, a, rel: tails(rel, v), meta },
        ),
{
    reveal(is_part);
    let task = Task::Values { p, a, rel, meta };
    lemma_involves(fx, task);
    assert(is_part(fx, task, Task::Fire { p: p + 1, a, rel: tails(rel, v), meta }));
}

/// The parts of a [`Task::Fire`] that no operand decides.
pub proof fn lemma_demand_fire(
    fx: Effects,
    p: int,
    a: Set<Seq<u32>>,
    rel: Set<Seq<u32>>,
    meta: Seq<u32>,
)
    requires
        inhabited(a),
        inhabited(rel),
        meta.len() > 0,
    ensures
        ({
            let task = Task::Fire { p, a, rel, meta };
            let s = fx.reach(p + 1, p, image(a, rel, meta));
            &&& involves(fx, task, Task::Step { p, a, rel, meta })
            &&& involves(fx, task, Task::Saturate { p, s })
        }),
{
    reveal(is_part);
    let task = Task::Fire { p, a, rel, meta };
    let s = fx.reach(p + 1, p, image(a, rel, meta));
    lemma_involves(fx, task);
    assert(is_part(fx, task, Task::Step { p, a, rel, meta }));
    assert(is_part(fx, task, Task::Saturate { p, s }));
}

/// The result of a [`Task::Step`], and its part for the greater values.
pub proof fn lemma_demand_step(
    fx: Effects,
    p: int,
    v: u32,
    d: Set<Seq<u32>>,
    rest: Set<Seq<u32>>,
    rel: Set<Seq<u32>>,
    meta: Seq<u32>,
)
    requires
        starts_above(rest, v),
        inhabited(d),
        meta.len() > 0,
    ensures
        ({
            let a = prefixed(v, d).union(rest);
            let task = Task::Step { p, a, rel, meta };
            &&& builds(fx, task, fx.reach(p + 1, p, image(a, rel, meta)))
            &&& involves(fx, task, Task::Step { p, a: rest, rel, meta })
            &&& meta[0] == NOT_IN_RELATION ==> involves(
                fx,
                task,
                Task::Fire { p: p + 1, a: d, rel, meta: meta.drop_first() },
            )
            &&& meta[0] == WRITE_ONLY ==> involves(
                fx,
                task,
                Task::Write { p, a: d, rel, meta: meta.drop_first() },
            )
        }),
{
    reveal(is_part);
    reveal(builds);
    lemma_split(v, d, rest);
    let a = prefixed(v, d).union(rest);
    let task = Task::Step { p, a, rel, meta };
    lemma_involves(fx, task);
    assert(is_part(fx, task, Task::Step { p, a: beyond(a, v), rel, meta }));
    if meta[0] == NOT_IN_RELATION {
        let part = Task::Fire { p: p + 1, a: tails(a, v), rel, meta: meta.drop_first() };
        assert(is_part(fx, task, part));
    }
    if meta[0] == WRITE_ONLY {
        let part = Task::Write { p, a: tails(a, v), rel, meta: meta.drop_first() };
        assert(is_part(fx, task, part));
    }
}

/// The parts of a [`Task::Step`] at a position that is read.
pub proof fn lemma_demand_read(
    fx: Effects,
    p: int,
    v: u32,
    d: Set<Seq<u32>>,
    rest: Set<Seq<u32>>,
    rv: u32,
    rd: Set<Seq<u32>>,
    rrest: Set<Seq<u32>>,
    meta: Seq<u32>,
)
    requires
        starts_above(rest, v),
        inhabited(d),
        starts_above(rrest, rv),
        inhabited(rd),
        meta.len() > 0,
        is_read(meta),
    ensures
        ({
            let a = prefixed(v, d).union(rest);
            let rel = prefixed(rv, rd).union(rrest);
            let task = Task::Step { p, a, rel, meta };
            &&& involves(fx, task, Task::Step { p, a, rel: rrest, meta })
            &&& involves(fx, task, Task::Step { p, a: rest, rel: rrest, meta })
            &&& v == rv && meta[0] == READ_ONLY ==> involves(
                fx,
                task,
                Task::Fire { p: p + 1, a: d, rel: rd, meta: meta.drop_first() },
            )
            &&& v == rv && meta[0] == READ_OF_PAIR ==> involves(
                fx,
                task,
                Task::Write { p, a: d, rel: rd, meta: meta.drop_first().drop_first() },
            )
        }),
{
    reveal(is_part);
    lemma_split(v, d, rest);
    lemma_split(rv, rd, rrest);
    let a = prefixed(v, d).union(rest);
    let rel = prefixed(rv, rd).union(rrest);
    let task = Task::Step { p, a, rel, meta };
    let right = Task::Step { p, a: rest, rel, meta };
    lemma_involves(fx, task);
    assert(is_part(fx, task, Task::Step { p, a, rel: beyond(rel, rv), meta }));
    assert(is_part(fx, task, Task::Step { p, a: beyond(a, v), rel, meta }));
    assert(is_part(fx, right, Task::Step { p, a: rest, rel: beyond(rel, rv), meta }));
    if v == rv && meta[0] == READ_ONLY {
        let part = Task::Fire {
            p: p + 1,
            a: tails(a, v),
            rel: tails(rel, v),
            meta: meta.drop_first(),
        };
        assert(is_part(fx, task, part));
    }
    if v == rv && meta[0] == READ_OF_PAIR {
        let part = Task::Write {
            p,
            a: tails(a, v),
            rel: tails(rel, v),
            meta: meta.drop_first().drop_first(),
        };
        assert(is_part(fx, task, part));
    }
}

/// The part of a [`Task::Top`].
pub proof fn lemma_demand_top(
    fx: Effects,
    p: int,
    i: u32,
    a: Set<Seq<u32>>,
    rel: Set<Seq<u32>>,
    meta: Seq<u32>,
)
    ensures
        ({
            let task = Task::Top { p, i, a, rel, meta };
            let rest = meta.drop_first();
            &&& meta[0] == WRITE_ONLY ==> involves(
                fx,
                task,
                Task::Values { p, a, rel, meta: rest },
            )
            &&& meta[0] == READ_ONLY && inhabited(tails(rel, i)) ==> involves(
                fx,
                task,
                Task::Fire { p: p + 1, a, rel: tails(rel, i), meta: rest },
            )
            &&& meta[0] != WRITE_ONLY && meta[0] != READ_ONLY && inhabited(tails(rel, i))
                ==> involves(
                fx,
                task,
                Task::Values { p, a, rel: tails(rel, i), meta: rest.drop_first() },
            )
        }),
{
    reveal(is_part);
    let task = Task::Top { p, i, a, rel, meta };
    lemma_involves(fx, task);
    let rest = meta.drop_first();
    if meta[0] == WRITE_ONLY {
        assert(is_part(fx, task, Task::Values { p, a, rel, meta: rest }));
    } else if inhabited(tails(rel, i)) {
        if meta[0] == READ_ONLY {
            assert(is_part(fx, task, Task::Fire { p: p + 1, a, rel: tails(rel, i), meta: rest }));
        } else {
            let part = Task::Values { p, a, rel: tails(rel, i), meta: rest.drop_first() };
            assert(is_part(fx, task, part));
        }
    }
}

/// The result of a [`Task::Saturate`], and the level that it closes.
pub proof fn lemma_demand_saturate(fx: Effects, p: int, s: Set<Seq<u32>>)
    ensures
        builds(fx, Task::Saturate { p, s }, fx.reach(p, p, s)),
        involves(fx, Task::Saturate { p, s }, Task::Level { p, held: fx.reach(p + 1, p, s) }),
{
    reveal(is_part);
    reveal(builds);
    let task = Task::Saturate { p, s };
    lemma_involves(fx, task);
    assert(is_part(fx, task, Task::Level { p, held: fx.reach(p + 1, p, s) }));
}

/// The part of a [`Task::Saturate`] for a value.
pub proof fn lemma_demand_child(fx: Effects, p: int, s: Set<Seq<u32>>, v: u32)
    requires
        inhabited(tails(s, v)),
    ensures
        involves(fx, Task::Saturate { p, s }, Task::Saturate { p: p + 1, s: tails(s, v) }),
{
    reveal(is_part);
    let task = Task::Saturate { p, s };
    lemma_involves(fx, task);
    assert(is_part(fx, task, Task::Saturate { p: p + 1, s: tails(s, v) }));
}

/// The part of a [`Task::Level`] for a value.
pub proof fn lemma_demand_level(fx: Effects, p: int, held: Set<Seq<u32>>, i: u32)
    requires
        inhabited(tails(held, i)),
    ensures
        involves(fx, Task::Level { p, held }, Task::Value { p, held, i, a: tails(held, i) }),
{
    reveal(is_part);
    let task = Task::Level { p, held };
    lemma_involves(fx, task);
    assert(is_part(fx, task, Task::Value { p, held, i, a: tails(held, i) }));
}

/// Once all is united, the rest of a [`Task::Value`] is to close the level.
pub proof fn lemma_demand_rest(
    fx: Effects,
    p: int,
    held: Set<Seq<u32>>,
    i: u32,
    a: Set<Seq<u32>>,
)
    ensures
        involves(fx, Task::Value { p, held, i, a }, Task::Level { p, held }),
{
    reveal(is_part);
    let task = Task::Value { p, held, i, a };
    lemma_involves(fx, task);
    assert(is_part(fx, task, Task::Level { p, held }));
}

/// The part of a [`Task::Value`] that fires an event.
pub proof fn lemma_demand_event(
    fx: Effects,
    p: int,
    held: Set<Seq<u32>>,
    i: u32,
    a: Set<Seq<u32>>,
    e: int,
)
    requires
        fx.starts(e, p),
    ensures
        involves(
            fx,
            Task::Value { p, held, i, a },
            Task::Top { p, i, a, rel: fx.events[e].relation, meta: fx.events[e].meta },
        ),
{
    reveal(is_part);
    let task = Task::Value { p, held, i, a };
    lemma_involves(fx, task);
    let part = Task::Top { p, i, a, rel: fx.events[e].relation, meta: fx.events[e].meta };
    assert(is_part(fx, task, part));
}

/// The part of a [`Task::Value`] that unites what an event leads to into the level.
pub proof fn lemma_demand_unite(
    fx: Effects,
    p: int,
    held: Set<Seq<u32>>,
    i: u32,
    a: Set<Seq<u32>>,
    e: int,
    j: u32,
)
    requires
        fx.starts(e, p),
        inhabited(added(fx, p, i, a, e, j)),
    ensures
        ({
            let task = Task::Value { p, held, i, a };
            let more = added(fx, p, i, a, e, j);
            &&& involves(fx, task, Task::Value { p, held: held.union(prefixed(j, more)), i, a })
            &&& inhabited(tails(held, j)) ==> builds(fx, task, tails(held, j).union(more))
        }),
{
    reveal(is_part);
    reveal(builds);
    let task = Task::Value { p, held, i, a };
    lemma_involves(fx, task);
    let more = added(fx, p, i, a, e, j);
    assert(is_part(fx, task, Task::Value { p, held: held.union(prefixed(j, more)), i, a }));
}

// ---------------------------------------------------------------------------------------------
// Tasks that build nothing new

/// The edge for the vectors of `e` that start with a value greater than `v`.
pub proof fn lemma_beyond_present(nodes: Seq<LDDNode>, e: LDDEdge, v: u32) -> (r: LDDEdge)
    requires
        is_ldd(nodes),
        valid(nodes, e),
    ensures
        valid(nodes, r),
        vectors(nodes, r) == beyond(vectors(nodes, e), v),
    decreases e.id,
{
    lemma_terminals(nodes);
    if !is_inner(e) {
        assert(beyond(vectors(nodes, e), v) =~= vectors(nodes, empty()));
        empty()
    } else {
        let n = node_of(nodes, e);
        lemma_inner(nodes, e);
        if n.value > v {
            assert(beyond(vectors(nodes, e), v) =~= vectors(nodes, e));
            e
        } else {
            assert(beyond(vectors(nodes, e), v) =~= beyond(vectors(nodes, n.right), v));
            lemma_beyond_present(nodes, n.right, v)
        }
    }
}

/// The edge for the continuations of the value `v` in the vectors of `e`.
proof fn lemma_tails_present(nodes: Seq<LDDNode>, e: LDDEdge, v: u32) -> (r: LDDEdge)
    requires
        is_ldd(nodes),
        valid(nodes, e),
    ensures
        valid(nodes, r),
        vectors(nodes, r) == tails(vectors(nodes, e), v),
    decreases e.id,
{
    lemma_terminals(nodes);
    if !is_inner(e) {
        assert forall|w: Seq<u32>| !tails(vectors(nodes, e), v).contains(w) by {
            lemma_cons(v, w);
        }
        assert(tails(vectors(nodes, e), v) =~= vectors(nodes, empty()));
        empty()
    } else {
        let n = node_of(nodes, e);
        lemma_inner(nodes, e);
        assert forall|w: Seq<u32>| tails(vectors(nodes, e), v).contains(w) == (if n.value == v {
            vectors(nodes, n.down).contains(w)
        } else {
            tails(vectors(nodes, n.right), v).contains(w)
        }) by {
            lemma_cons(v, w);
        }
        if n.value == v {
            assert(tails(vectors(nodes, e), v) =~= vectors(nodes, n.down));
            n.down
        } else {
            assert(tails(vectors(nodes, e), v) =~= tails(vectors(nodes, n.right), v));
            lemma_tails_present(nodes, n.right, v)
        }
    }
}

/// There is an edge for the set.
spec fn present(nodes: Seq<LDDNode>, s: Set<Seq<u32>>) -> bool {
    exists|e: LDDEdge| #[trigger] valid(nodes, e) && vectors(nodes, e) == s
}

/// The task leads to no vector.
pub open spec fn is_idle(task: Task) -> bool {
    match task {
        Task::Saturate { p, s } => s == Set::<Seq<u32>>::empty(),
        Task::Level { p, held } => held == Set::<Seq<u32>>::empty(),
        Task::Value { .. } => false,
        Task::Top { p, i, a, rel, meta } => {
            &&& meta_ok(meta)
            &&& meta.len() > 0
            &&& meta[0] != NOT_IN_RELATION
            &&& image(prefixed(i, a), rel, meta) == Set::<Seq<u32>>::empty()
        },
        Task::Values { p, a, rel, meta } => meta_ok(meta) && written(a, rel, meta) == Set::<
            Seq<u32>,
        >::empty(),
        Task::Fire { p, a, rel, meta } => meta_ok(meta) && image(a, rel, meta) == Set::<
            Seq<u32>,
        >::empty(),
        Task::Step { p, a, rel, meta } => meta_ok(meta) && image(a, rel, meta) == Set::<
            Seq<u32>,
        >::empty(),
        Task::Write { p, a, rel, meta } => meta_ok(meta) && written(a, rel, meta) == Set::<
            Seq<u32>,
        >::empty(),
    }
}

/// If an event leads to no vector from `a`, its rest leads to none from the continuations of a value.
proof fn lemma_image_tails(a: Set<Seq<u32>>, rel: Set<Seq<u32>>, meta: Seq<u32>, v: u32)
    requires
        meta_ok(meta),
        meta.len() > 0,
        image(a, rel, meta) == Set::<Seq<u32>>::empty(),
    ensures
        ({
            let none = Set::<Seq<u32>>::empty();
            let rest = meta.drop_first();
            if meta[0] == NOT_IN_RELATION {
                image(tails(a, v), rel, rest) == none
            } else if meta[0] == WRITE_ONLY {
                written(tails(a, v), rel, rest) == none
            } else if meta[0] == READ_ONLY {
                image(tails(a, v), tails(rel, v), rest) == none
            } else {
                written(tails(a, v), tails(rel, v), rest.drop_first()) == none
            }
        }),
{
    let none = Set::<Seq<u32>>::empty();
    let rest = meta.drop_first();
    let d = tails(a, v);
    let rd = tails(rel, v);
    if meta[0] == NOT_IN_RELATION {
        assert forall|y: Seq<u32>| !image(d, rel, rest).contains(y) by {
            if image(d, rel, rest).contains(y) {
                let (w, t) = choose|w: Seq<u32>, t: Seq<u32>|
                    d.contains(w) && rel.contains(t) && #[trigger] fires(rest, t, w, y);
                lemma_cons(v, w);
                lemma_cons(v, y);
                assert(fires(meta, t, cons(v, w), cons(v, y)));
                assert(image(a, rel, meta).contains(cons(v, y)));
            }
        }
        assert(image(d, rel, rest) =~= none);
    } else if meta[0] == WRITE_ONLY {
        assert forall|y: Seq<u32>| !written(d, rel, rest).contains(y) by {
            if written(d, rel, rest).contains(y) {
                let (w, t) = choose|w: Seq<u32>, t: Seq<u32>|
                    d.contains(w) && rel.contains(t) && t.len() > 0 && y.len() > 0 && y[0] == t[0]
                        && #[trigger] fires(rest, t.drop_first(), w, y.drop_first());
                lemma_cons(v, w);
                assert(fires(meta, t, cons(v, w), y));
                assert(image(a, rel, meta).contains(y));
            }
        }
        assert(written(d, rel, rest) =~= none);
    } else if meta[0] == READ_ONLY {
        assert forall|y: Seq<u32>| !image(d, rd, rest).contains(y) by {
            if image(d, rd, rest).contains(y) {
                let (w, t) = choose|w: Seq<u32>, t: Seq<u32>|
                    d.contains(w) && rd.contains(t) && #[trigger] fires(rest, t, w, y);
                lemma_cons(v, w);
                lemma_cons(v, t);
                lemma_cons(v, y);
                assert(fires(meta, cons(v, t), cons(v, w), cons(v, y)));
                assert(image(a, rel, meta).contains(cons(v, y)));
            }
        }
        assert(image(d, rd, rest) =~= none);
    } else {
        let m = rest.drop_first();
        assert forall|y: Seq<u32>| !written(d, rd, m).contains(y) by {
            if written(d, rd, m).contains(y) {
                let (w, t) = choose|w: Seq<u32>, t: Seq<u32>|
                    d.contains(w) && rd.contains(t) && t.len() > 0 && y.len() > 0 && y[0] == t[0]
                        && #[trigger] fires(m, t.drop_first(), w, y.drop_first());
                lemma_cons(v, w);
                lemma_cons(v, t);
                assert(cons(v, t)[1] == t[0]);
                assert(fires(meta, cons(v, t), cons(v, w), y));
                assert(image(a, rel, meta).contains(y));
            }
        }
        assert(written(d, rd, m) =~= none);
    }
}

/// If nothing is written in front of `a`, the rest of the event leads to no vector from it.
proof fn lemma_written_tails(a: Set<Seq<u32>>, rel: Set<Seq<u32>>, meta: Seq<u32>, v: u32)
    requires
        written(a, rel, meta) == Set::<Seq<u32>>::empty(),
    ensures
        image(a, tails(rel, v), meta) == Set::<Seq<u32>>::empty(),
{
    let rd = tails(rel, v);
    assert forall|y: Seq<u32>| !image(a, rd, meta).contains(y) by {
        if image(a, rd, meta).contains(y) {
            let (x, t) = choose|x: Seq<u32>, t: Seq<u32>|
                a.contains(x) && rd.contains(t) && #[trigger] fires(meta, t, x, y);
            lemma_cons(v, t);
            lemma_cons(v, y);
            assert(fires(meta, cons(v, t).drop_first(), x, cons(v, y).drop_first()));
            assert(written(a, rel, meta).contains(cons(v, y)));
        }
    }
    assert(image(a, rd, meta) =~= Set::<Seq<u32>>::empty());
}

/// Fewer vectors and transitions lead to fewer vectors.
pub proof fn lemma_image_beyond(a: Set<Seq<u32>>, rel: Set<Seq<u32>>, meta: Seq<u32>, v: u32)
    ensures
        image(beyond(a, v), rel, meta).subset_of(image(a, rel, meta)),
        image(a, beyond(rel, v), meta).subset_of(image(a, rel, meta)),
        written(a, beyond(rel, v), meta).subset_of(written(a, rel, meta)),
{
    assert forall|y: Seq<u32>| image(beyond(a, v), rel, meta).contains(y) implies image(
        a,
        rel,
        meta,
    ).contains(y) by {
        let (x, t) = choose|x: Seq<u32>, t: Seq<u32>|
            beyond(a, v).contains(x) && rel.contains(t) && #[trigger] fires(meta, t, x, y);
        assert(a.contains(x) && fires(meta, t, x, y));
    }
    assert forall|y: Seq<u32>| image(a, beyond(rel, v), meta).contains(y) implies image(
        a,
        rel,
        meta,
    ).contains(y) by {
        let (x, t) = choose|x: Seq<u32>, t: Seq<u32>|
            a.contains(x) && beyond(rel, v).contains(t) && #[trigger] fires(meta, t, x, y);
        assert(rel.contains(t) && fires(meta, t, x, y));
    }
    assert forall|y: Seq<u32>| written(a, beyond(rel, v), meta).contains(y) implies written(
        a,
        rel,
        meta,
    ).contains(y) by {
        let (x, t) = choose|x: Seq<u32>, t: Seq<u32>|
            a.contains(x) && beyond(rel, v).contains(t) && t.len() > 0 && y.len() > 0 && y[0]
                == t[0] && #[trigger] fires(meta, t.drop_first(), x, y.drop_first());
        assert(rel.contains(t) && fires(meta, t.drop_first(), x, y.drop_first()));
    }
}

/// Nothing is reached from nothing.
proof fn lemma_reach_empty(fx: Effects, t: int, p: int)
    ensures
        fx.reach(t, p, Set::empty()) == Set::<Seq<u32>>::empty(),
{
    lemma_closure_least((fx.steps)(t, p), Set::empty(), Set::empty());
    assert(fx.reach(t, p, Set::empty()) =~= Set::<Seq<u32>>::empty());
}

/// The parts of a task that leads to no vector lead to none.
proof fn lemma_idle_part(fx: Effects, task: Task, part: Task)
    requires
        is_idle(task),
        is_part(fx, task, part),
    ensures
        is_idle(part),
{
    reveal(is_part);
    let none = Set::<Seq<u32>>::empty();
    match task {
        Task::Saturate { p, s } => {
            lemma_reach_empty(fx, p + 1, p);
        },
        Task::Level { .. } => {},
        Task::Value { .. } => {},
        Task::Top { p, i, a, rel, meta } => {
            lemma_image_tails(prefixed(i, a), rel, meta, i);
            assert forall|w: Seq<u32>| tails(prefixed(i, a), i).contains(w) == a.contains(w) by {
                lemma_cons(i, w);
            }
            assert(tails(prefixed(i, a), i) =~= a);
        },
        Task::Values { p, a, rel, meta } => {
            let v = choose|v: u32|
                inhabited(#[trigger] tails(rel, v)) && part == (Task::Fire {
                    p: p + 1,
                    a,
                    rel: tails(rel, v),
                    meta,
                });
            lemma_written_tails(a, rel, meta, v);
        },
        Task::Fire { p, a, rel, meta } => {
            lemma_reach_empty(fx, p + 1, p);
        },
        Task::Step { p, a, rel, meta } => {
            assert forall|v: u32| image(#[trigger] beyond(a, v), rel, meta) == none by {
                lemma_image_beyond(a, rel, meta, v);
                assert(image(beyond(a, v), rel, meta) =~= none);
            }
            assert forall|v: u32| image(a, #[trigger] beyond(rel, v), meta) == none by {
                lemma_image_beyond(a, rel, meta, v);
                assert(image(a, beyond(rel, v), meta) =~= none);
            }
            if !(part is Step) {
                match part {
                    Task::Fire { a: d, .. } => {
                        let v = choose|v: u32| d == #[trigger] tails(a, v) && inhabited(d)
                            && step_continues(p, a, rel, meta, v, part);
                        lemma_image_tails(a, rel, meta, v);
                    },
                    Task::Write { a: d, .. } => {
                        let v = choose|v: u32| d == #[trigger] tails(a, v) && inhabited(d)
                            && step_continues(p, a, rel, meta, v, part);
                        lemma_image_tails(a, rel, meta, v);
                    },
                    _ => {},
                }
            }
        },
        Task::Write { p, a, rel, meta } => {
            assert forall|v: u32| written(a, #[trigger] beyond(rel, v), meta) == none by {
                lemma_image_beyond(a, rel, meta, v);
                assert(written(a, beyond(rel, v), meta) =~= none);
            }
            assert forall|v: u32| image(a, #[trigger] tails(rel, v), meta) == none by {
                lemma_written_tails(a, rel, meta, v);
            }
        },
    }
}

/// A task that leads to no vector builds the empty set only.
proof fn lemma_idle_built(fx: Effects, task: Task, s: Set<Seq<u32>>)
    requires
        is_idle(task),
        builds(fx, task, s),
    ensures
        s == Set::<Seq<u32>>::empty(),
{
    reveal(builds);
    match task {
        Task::Saturate { p, .. } => {
            lemma_reach_empty(fx, p, p);
        },
        Task::Step { p, .. } => {
            lemma_reach_empty(fx, p + 1, p);
        },
        Task::Write { p, .. } => {
            lemma_reach_empty(fx, p + 1, p);
        },
        _ => {},
    }
}

/// Nothing is missing for a task that leads to no vector.
pub proof fn lemma_demand_idle(nodes: Seq<LDDNode>, fx: Effects, task: Task)
    requires
        is_idle(task),
    ensures
        !lacks(nodes, fx, task),
{
    let all = Set::new(|t: Task| is_idle(t));
    assert forall|x: Task, y: Task| all.contains(x) && #[trigger] is_part(
        fx,
        x,
        y,
    ) implies all.contains(y) by {
        lemma_idle_part(fx, x, y);
    }
    reveal(lacks);
    if lacks(nodes, fx, task) {
        let (sub, s) = choose|sub: Task, s: Set<Seq<u32>>|
            involves(fx, task, sub) && #[trigger] builds(fx, sub, s) && absent(nodes, s);
        lemma_involves_only(fx, task, all, sub);
        lemma_idle_built(fx, sub, s);
        lemma_terminals(nodes);
        assert(valid(nodes, empty()));
    }
}

/// No event that starts at position `p` or below leads anywhere from a vector of `s`.
pub open spec fn is_still(
    nodes: Seq<LDDNode>,
    events: Seq<SaturationEvent>,
    p: int,
    s: Set<Seq<u32>>,
) -> bool {
    forall|x: Seq<u32>, y: Seq<u32>|
        s.contains(x) ==> !#[trigger] can_step(nodes, events, p, p, x, y)
}

/// No event starts at position `p` or below.
pub open spec fn end_before(events: Seq<SaturationEvent>, p: int) -> bool {
    forall|k: int| 0 <= k < events.len() ==> (#[trigger] events[k]).top < p
}

/// If nothing leads anywhere, nothing else is reached.
pub proof fn lemma_still_reachable(
    nodes: Seq<LDDNode>,
    events: Seq<SaturationEvent>,
    p: int,
    s: Set<Seq<u32>>,
)
    requires
        is_still(nodes, events, p, s),
    ensures
        reachable(nodes, events, p, p, s) == s,
        reachable(nodes, events, p + 1, p, s) == s,
{
    let rel = step_rel(nodes, events, p, p);
    let below = step_rel(nodes, events, p + 1, p);
    lemma_step_weaken(nodes, events, p);
    assert forall|x: Seq<u32>, y: Seq<u32>| s.contains(x) && #[trigger] rel(x, y) implies s.contains(
        y,
    ) by {
        assert(can_step(nodes, events, p, p, x, y));
    }
    assert forall|x: Seq<u32>, y: Seq<u32>| s.contains(x) && #[trigger] below(
        x,
        y,
    ) implies s.contains(y) by {
        assert(rel(x, y));
        assert(can_step(nodes, events, p, p, x, y));
    }
    lemma_closure_fixed(rel, s);
    lemma_closure_fixed(below, s);
}

/// If nothing leads anywhere from a set, nothing does from the continuations of a value.
proof fn lemma_still_tails(
    nodes: Seq<LDDNode>,
    events: Seq<SaturationEvent>,
    p: int,
    s: Set<Seq<u32>>,
    v: u32,
)
    requires
        is_still(nodes, events, p, s),
    ensures
        is_still(nodes, events, p + 1, tails(s, v)),
{
    assert forall|x: Seq<u32>, y: Seq<u32>| tails(s, v).contains(x) implies !#[trigger] can_step(
        nodes,
        events,
        p + 1,
        p + 1,
        x,
        y,
    ) by {
        if can_step(nodes, events, p + 1, p + 1, x, y) {
            lemma_cons(v, x);
            lemma_cons(v, y);
            lemma_step_tail(nodes, events, p, cons(v, x), cons(v, y));
            lemma_step_weaken(nodes, events, p);
            assert(step_rel(nodes, events, p + 1, p)(cons(v, x), cons(v, y)));
            assert(step_rel(nodes, events, p, p)(cons(v, x), cons(v, y)));
            assert(can_step(nodes, events, p, p, cons(v, x), cons(v, y)));
        }
    }
}

/// If nothing leads anywhere from `held`, an event leads nowhere from one of its values.
proof fn lemma_still_fired(
    nodes: Seq<LDDNode>,
    events: Seq<SaturationEvent>,
    p: int,
    held: Set<Seq<u32>>,
    i: u32,
    e: int,
)
    requires
        is_still(nodes, events, p, held),
        effects(nodes, events).starts(e, p),
    ensures
        ({
            let fx = effects(nodes, events);
            let a = tails(held, i);
            &&& image(prefixed(i, a), fx.events[e].relation, fx.events[e].meta) == Set::<
                Seq<u32>,
            >::empty()
            &&& fx.fired(p, i, a, e) == Set::<Seq<u32>>::empty()
        }),
{
    let fx = effects(nodes, events);
    let a = prefixed(i, tails(held, i));
    let s = image(a, fx.events[e].relation, fx.events[e].meta);
    assert forall|y: Seq<u32>| !s.contains(y) by {
        if s.contains(y) {
            let x = lemma_image_step(nodes, events, e, p, a, y);
            lemma_uncons(x);
            assert(held.contains(x));
        }
    }
    assert(s =~= Set::<Seq<u32>>::empty());
    lemma_reach_empty(fx, p + 1, p);
}

/// The task leads to no vector, or works at position `from` or below on a set from which nothing
/// leads anywhere.
spec fn is_settled(
    before: Seq<LDDNode>,
    events: Seq<SaturationEvent>,
    nodes: Seq<LDDNode>,
    from: int,
    task: Task,
) -> bool {
    is_idle(task) || match task {
        Task::Saturate { p, s } => p >= from && present(nodes, s) && is_still(before, events, p, s),
        Task::Level { p, held } => p >= from && is_still(before, events, p, held),
        Task::Value { p, held, i, a } => p >= from && is_still(before, events, p, held) && a
            == tails(held, i),
        _ => false,
    }
}

proof fn lemma_settled_part(
    before: Seq<LDDNode>,
    events: Seq<SaturationEvent>,
    nodes: Seq<LDDNode>,
    from: int,
    task: Task,
    part: Task,
)
    requires
        is_ldd(nodes),
        is_ldd(before),
        events_ok(before, events, from),
        is_settled(before, events, nodes, from, task),
        is_part(effects(before, events), task, part),
    ensures
        is_settled(before, events, nodes, from, part),
{
    let fx = effects(before, events);
    if is_idle(task) {
        lemma_idle_part(fx, task, part);
    } else {
        reveal(is_part);
        match task {
            Task::Saturate { p, s } => {
                lemma_still_reachable(before, events, p, s);
                let u = choose|u: LDDEdge| #[trigger] valid(nodes, u) && vectors(nodes, u) == s;
                assert forall|v: u32| #[trigger]
                    is_still(before, events, p + 1, tails(s, v)) && present(nodes, tails(s, v)) by {
                    lemma_still_tails(before, events, p, s, v);
                    let d = lemma_tails_present(nodes, u, v);
                    assert(valid(nodes, d));
                }
                if part is Saturate {
                    let v = choose|v: u32|
                        inhabited(#[trigger] tails(s, v)) && part == (Task::Saturate {
                            p: p + 1,
                            s: tails(s, v),
                        });
                    assert(is_still(before, events, p + 1, tails(s, v)));
                }
            },
            Task::Value { p, held, i, a } => {
                if part is Top {
                    let e = choose|e: int| #[trigger]
                        fx.starts(e, p) && part == (Task::Top {
                            p,
                            i,
                            a,
                            rel: fx.events[e].relation,
                            meta: fx.events[e].meta,
                        });
                    lemma_still_fired(before, events, p, held, i, e);
                    assert(event_ok(before, events[e]));
                    lemma_meta_inner(before, events[e].meta_at_top);
                } else if part is Value {
                    let (e, j) = choose|e: int, j: u32|
                        fx.starts(e, p) && inhabited(#[trigger] added(fx, p, i, a, e, j)) && part
                            == (Task::Value {
                            p,
                            held: held.union(prefixed(j, added(fx, p, i, a, e, j))),
                            i,
                            a,
                        });
                    lemma_still_fired(before, events, p, held, i, e);
                }
            },
            _ => {},
        }
    }
}

/// Nothing is missing for saturating a set that has an edge if nothing leads anywhere from it.
pub proof fn lemma_demand_still(
    before: Seq<LDDNode>,
    events: Seq<SaturationEvent>,
    nodes: Seq<LDDNode>,
    p: int,
    e: LDDEdge,
)
    requires
        is_ldd(before),
        is_ldd(nodes),
        events_ok(before, events, p),
        valid(nodes, e),
        is_still(before, events, p, vectors(nodes, e)),
    ensures
        !lacks(nodes, effects(before, events), Task::Saturate { p, s: vectors(nodes, e) }),
{
    let fx = effects(before, events);
    let task = Task::Saturate { p, s: vectors(nodes, e) };
    let all = Set::new(|t: Task| is_settled(before, events, nodes, p, t));
    assert(present(nodes, vectors(nodes, e)));
    assert forall|x: Task, y: Task| all.contains(x) && #[trigger] is_part(
        fx,
        x,
        y,
    ) implies all.contains(y) by {
        lemma_settled_part(before, events, nodes, p, x, y);
    }
    reveal(lacks);
    if lacks(nodes, fx, task) {
        let (sub, s) = choose|sub: Task, s: Set<Seq<u32>>|
            involves(fx, task, sub) && #[trigger] builds(fx, sub, s) && absent(nodes, s);
        lemma_involves_only(fx, task, all, sub);
        if is_idle(sub) {
            lemma_idle_built(fx, sub, s);
            lemma_terminals(nodes);
            assert(valid(nodes, empty()));
        } else {
            reveal(builds);
            match sub {
                Task::Saturate { p: q, s: t } => {
                    lemma_still_reachable(before, events, q, t);
                    assert(fx.reach(q, q, t) == reachable(before, events, q, q, t));
                    assert(present(nodes, s));
                },
                Task::Value { p: q, held, i, a } => {
                    let (k, j) = choose|k: int, j: u32|
                        fx.starts(k, q) && inhabited(#[trigger] added(fx, q, i, a, k, j))
                            && inhabited(tails(held, j)) && s == tails(held, j).union(
                            added(fx, q, i, a, k, j),
                        );
                    lemma_still_fired(before, events, q, held, i, k);
                },
                _ => {},
            }
        }
    }
}

} // verus!
