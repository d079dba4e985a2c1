//! Laws of what an error of saturation tells.

use super::closure::{lemma_closure_closed, lemma_closure_least};
use super::demand::{
    added, beyond, builds, effects, inhabited, involves, is_part, lacks, lemma_image_beyond,
    lemma_involves_only, step_continues, Task,
};
use super::firing::{
    can_step, event_ok, event_step, events_ok, fires, image, lemma_meta_inner, meta_of, meta_ok,
    reachable, step_rel, tails, written, SaturationEvent, NOT_IN_RELATION, READ_ONLY, WRITE_ONLY,
};
use super::semantics::{
    absent, cons, is_ldd, lemma_cons, lemma_uncons, prefixed, valid, vectors, LDDEdge, LDDNode,
};
use vstd::prelude::*;

verus! {

/// What the vectors of `all` that start with `w` continue with.
spec fn behind(all: Set<Seq<u32>>, w: Seq<u32>) -> Set<Seq<u32>> {
    Set::new(|y: Seq<u32>| all.contains(w + y))
}

/// The continuations of a value are behind that value.
proof fn lemma_behind_tails(all: Set<Seq<u32>>, w: Seq<u32>, v: u32)
    ensures
        tails(behind(all, w), v) == behind(all, w.push(v)),
{
    assert forall|y: Seq<u32>| tails(behind(all, w), v).contains(y) == behind(
        all,
        w.push(v),
    ).contains(y) by {
        assert(w + cons(v, y) =~= w.push(v) + y);
    }
    assert(tails(behind(all, w), v) =~= behind(all, w.push(v)));
}

/// An event does the same to the vectors behind a prefix.
proof fn lemma_behind_step(
    nodes: Seq<LDDNode>,
    event: SaturationEvent,
    p: int,
    w: Seq<u32>,
    x: Seq<u32>,
    y: Seq<u32>,
)
    requires
        event_step(nodes, event, p + w.len(), x, y),
    ensures
        event_step(nodes, event, p, w + x, w + y),
{
    let k = event.top - (p + w.len());
    let n = event.top - p;
    let meta = meta_of(nodes, event.meta_at_top);
    assert((w + x).skip(n) =~= x.skip(k));
    assert((w + y).skip(n) =~= y.skip(k));
    assert forall|i: int| 0 <= i < n implies (w + x).take(n)[i] == (w + y).take(n)[i] by {
        if i >= w.len() {
            assert(x.take(k)[i - w.len()] == y.take(k)[i - w.len()]);
        }
    }
    assert((w + x).take(n) =~= (w + y).take(n));
    let r = choose|r: Seq<u32>|
        vectors(nodes, event.relation).contains(r) && #[trigger] fires(
            meta,
            r,
            x.skip(k),
            y.skip(k),
        );
    assert(fires(meta, r, (w + x).skip(n), (w + y).skip(n)));
}

/// What is reached from vectors behind a prefix is behind that prefix, if nothing leads out of the
/// vectors.
proof fn lemma_behind_reach(
    nodes: Seq<LDDNode>,
    events: Seq<SaturationEvent>,
    p: int,
    all: Set<Seq<u32>>,
    w: Seq<u32>,
    t: int,
    s: Set<Seq<u32>>,
)
    requires
        forall|x: Seq<u32>, y: Seq<u32>|
            all.contains(x) && #[trigger] can_step(nodes, events, p, p, x, y) ==> all.contains(y),
        t >= p,
        s.subset_of(behind(all, w)),
    ensures
        effects(nodes, events).reach(t, p + w.len(), s).subset_of(behind(all, w)),
{
    let q = p + w.len();
    let rel = step_rel(nodes, events, t, q);
    assert forall|x: Seq<u32>, y: Seq<u32>| behind(all, w).contains(x) && #[trigger] rel(
        x,
        y,
    ) implies behind(all, w).contains(y) by {
        assert(can_step(nodes, events, t, q, x, y));
        let i: int = choose|i: int|
            0 <= i < events.len() && events[i].top >= t && #[trigger] event_step(
                nodes,
                events[i],
                q,
                x,
                y,
            );
        lemma_behind_step(nodes, events[i], p, w, x, y);
        assert(can_step(nodes, events, p, p, w + x, w + y));
    }
    lemma_closure_least(rel, s, behind(all, w));
}

/// Where an event leads from `a` to `all`, its rest leads from the continuations of a value to those
/// of `all`.
proof fn lemma_image_rest(
    a: Set<Seq<u32>>,
    rel: Set<Seq<u32>>,
    meta: Seq<u32>,
    v: u32,
    all: Set<Seq<u32>>,
)
    requires
        meta_ok(meta),
        meta.len() > 0,
        image(a, rel, meta).subset_of(all),
    ensures
        ({
            let rest = meta.drop_first();
            if meta[0] == NOT_IN_RELATION {
                image(tails(a, v), rel, rest).subset_of(tails(all, v))
            } else if meta[0] == WRITE_ONLY {
                written(tails(a, v), rel, rest).subset_of(all)
            } else if meta[0] == READ_ONLY {
                image(tails(a, v), tails(rel, v), rest).subset_of(tails(all, v))
            } else {
                written(tails(a, v), tails(rel, v), rest.drop_first()).subset_of(all)
            }
        }),
{
    let rest = meta.drop_first();
    let d = tails(a, v);
    let rd = tails(rel, v);
    if meta[0] == NOT_IN_RELATION {
        assert forall|y: Seq<u32>| image(d, rel, rest).contains(y) implies tails(all, v).contains(
            y,
        ) by {
            let (w, t) = choose|w: Seq<u32>, t: Seq<u32>|
                d.contains(w) && rel.contains(t) && #[trigger] fires(rest, t, w, y);
            lemma_cons(v, w);
            lemma_cons(v, y);
            assert(fires(meta, t, cons(v, w), cons(v, y)));
            assert(image(a, rel, meta).contains(cons(v, y)));
        }
    } else if meta[0] == WRITE_ONLY {
        assert forall|y: Seq<u32>| written(d, rel, rest).contains(y) implies all.contains(y) by {
            let (w, t) = choose|w: Seq<u32>, t: Seq<u32>|
                d.contains(w) && rel.contains(t) && t.len() > 0 && y.len() > 0 && y[0] == t[0]
                    && #[trigger] fires(rest, t.drop_first(), w, y.drop_first());
            lemma_cons(v, w);
            assert(fires(meta, t, cons(v, w), y));
            assert(image(a, rel, meta).contains(y));
        }
    } else if meta[0] == READ_ONLY {
        assert forall|y: Seq<u32>| image(d, rd, rest).contains(y) implies tails(all, v).contains(
            y,
        ) by {
            let (w, t) = choose|w: Seq<u32>, t: Seq<u32>|
                d.contains(w) && rd.contains(t) && #[trigger] fires(rest, t, w, y);
            lemma_cons(v, w);
            lemma_cons(v, t);
            lemma_cons(v, y);
            assert(fires(meta, cons(v, t), cons(v, w), cons(v, y)));
            assert(image(a, rel, meta).contains(cons(v, y)));
        }
    } else {
        let m = rest.drop_first();
        assert forall|y: Seq<u32>| written(d, rd, m).contains(y) implies all.contains(y) by {
            let (w, t) = choose|w: Seq<u32>, t: Seq<u32>|
                d.contains(w) && rd.contains(t) && t.len() > 0 && y.len() > 0 && y[0] == t[0]
                    && #[trigger] fires(m, t.drop_first(), w, y.drop_first());
            lemma_cons(v, w);
            lemma_cons(v, t);
            assert(cons(v, t)[1] == t[0]);
            assert(fires(meta, cons(v, t), cons(v, w), y));
            assert(image(a, rel, meta).contains(y));
        }
    }
}

/// Where the vectors that are written are in `all`, those that the rest of the event leads to are the
/// continuations of a written value in `all`.
proof fn lemma_written_rest(
    a: Set<Seq<u32>>,
    rel: Set<Seq<u32>>,
    meta: Seq<u32>,
    v: u32,
    all: Set<Seq<u32>>,
)
    requires
        written(a, rel, meta).subset_of(all),
    ensures
        image(a, tails(rel, v), meta).subset_of(tails(all, v)),
{
    let rd = tails(rel, v);
    assert forall|y: Seq<u32>| image(a, rd, meta).contains(y) implies tails(all, v).contains(y) by {
        let (x, t) = choose|x: Seq<u32>, t: Seq<u32>|
            a.contains(x) && rd.contains(t) && #[trigger] fires(meta, t, x, y);
        lemma_cons(v, t);
        lemma_cons(v, y);
        assert(fires(meta, cons(v, t).drop_first(), x, cons(v, y).drop_first()));
        assert(written(a, rel, meta).contains(cons(v, y)));
    }
}

/// All that the task leads to is behind the prefix `w` in `all`, whose vectors start at position
/// `from`.
spec fn leads_behind(all: Set<Seq<u32>>, from: int, w: Seq<u32>, task: Task) -> bool {
    let u = behind(all, w);
    match task {
        Task::Saturate { p, s } => p == from + w.len() && s.subset_of(u),
        Task::Level { p, held } => p == from + w.len() && held.subset_of(u),
        Task::Value { p, held, i, a } => p == from + w.len() && held.subset_of(u) && prefixed(
            i,
            a,
        ).subset_of(u),
        Task::Top { p, i, a, rel, meta } => {
            &&& p == from + w.len()
            &&& meta_ok(meta)
            &&& meta.len() > 0
            &&& meta[0] != NOT_IN_RELATION
            &&& image(prefixed(i, a), rel, meta).subset_of(u)
        },
        Task::Values { p, a, rel, meta } => p == from + w.len() && meta_ok(meta) && written(
            a,
            rel,
            meta,
        ).subset_of(u),
        Task::Fire { p, a, rel, meta } => p == from + w.len() && meta_ok(meta) && image(
            a,
            rel,
            meta,
        ).subset_of(u),
        Task::Step { p, a, rel, meta } => p == from + w.len() && meta_ok(meta) && image(
            a,
            rel,
            meta,
        ).subset_of(u),
        Task::Write { p, a, rel, meta } => p == from + w.len() && meta_ok(meta) && written(
            a,
            rel,
            meta,
        ).subset_of(u),
    }
}

/// All that the task leads to is behind some prefix.
spec fn leads_within(all: Set<Seq<u32>>, from: int, task: Task) -> bool {
    exists|w: Seq<u32>| #[trigger] leads_behind(all, from, w, task)
}

/// The vectors that an event leads to from a value and its continuations, together with the events
/// below.
proof fn lemma_fired_behind(
    nodes: Seq<LDDNode>,
    events: Seq<SaturationEvent>,
    from: int,
    all: Set<Seq<u32>>,
    w: Seq<u32>,
    i: u32,
    a: Set<Seq<u32>>,
    e: int,
)
    requires
        forall|x: Seq<u32>, y: Seq<u32>|
            all.contains(x) && #[trigger] can_step(nodes, events, from, from, x, y) ==> all.contains(
                y,
            ),
        effects(nodes, events).starts(e, from + w.len()),
        prefixed(i, a).subset_of(behind(all, w)),
    ensures
        image(
            prefixed(i, a),
            effects(nodes, events).events[e].relation,
            effects(nodes, events).events[e].meta,
        ).subset_of(behind(all, w)),
        effects(nodes, events).fired(from + w.len(), i, a, e).subset_of(behind(all, w)),
{
    let fx = effects(nodes, events);
    let p = from + w.len();
    let rel = fx.events[e].relation;
    let meta = fx.events[e].meta;
    let start = prefixed(i, a);
    assert forall|y: Seq<u32>| image(start, rel, meta).contains(y) implies behind(all, w).contains(
        y,
    ) by {
        let (x, t) = choose|x: Seq<u32>, t: Seq<u32>|
            start.contains(x) && rel.contains(t) && #[trigger] fires(meta, t, x, y);
        assert(x.skip(0) =~= x);
        assert(y.skip(0) =~= y);
        assert(x.take(0) =~= y.take(0));
        assert(fires(meta, t, x.skip(0), y.skip(0)));
        assert(event_step(nodes, events[e], p, x, y));
        lemma_behind_step(nodes, events[e], from, w, x, y);
        assert(can_step(nodes, events, from, from, w + x, w + y));
    }
    lemma_behind_reach(nodes, events, from, all, w, p + 1, image(start, rel, meta));
}

/// The parts of a task lead to what is behind some prefix as well.
proof fn lemma_leads_part(
    nodes: Seq<LDDNode>,
    events: Seq<SaturationEvent>,
    from: int,
    all: Set<Seq<u32>>,
    task: Task,
    part: Task,
)
    requires
        is_ldd(nodes),
        events_ok(nodes, events, from),
        forall|x: Seq<u32>, y: Seq<u32>|
            all.contains(x) && #[trigger] can_step(nodes, events, from, from, x, y) ==> all.contains(
                y,
            ),
        leads_within(all, from, task),
        is_part(effects(nodes, events), task, part),
    ensures
        leads_within(all, from, part),
{
    reveal(is_part);
    let fx = effects(nodes, events);
    let w = choose|w: Seq<u32>| #[trigger] leads_behind(all, from, w, task);
    let u = behind(all, w);
    assert forall|v: u32| #[trigger] tails(u, v) == behind(all, w.push(v)) by {
        lemma_behind_tails(all, w, v);
    }
    match task {
        Task::Saturate { p, s } => {
            lemma_behind_reach(nodes, events, from, all, w, p + 1, s);
            if part is Level {
                assert(leads_behind(all, from, w, part));
            } else {
                let v = choose|v: u32|
                    inhabited(#[trigger] tails(s, v)) && part == (Task::Saturate {
                        p: p + 1,
                        s: tails(s, v),
                    });
                assert(tails(s, v).subset_of(tails(u, v)));
                assert(leads_behind(all, from, w.push(v), part));
            }
        },
        Task::Level { p, held } => {
            let i = choose|i: u32|
                inhabited(#[trigger] tails(held, i)) && part == (Task::Value {
                    p,
                    held,
                    i,
                    a: tails(held, i),
                });
            assert forall|x: Seq<u32>| prefixed(i, tails(held, i)).contains(x) implies u.contains(
                x,
            ) by {
                lemma_uncons(x);
            }
            assert(leads_behind(all, from, w, part));
        },
        Task::Value { p, held, i, a } => {
            if part is Level {
                assert(leads_behind(all, from, w, part));
            } else if part is Top {
                let e = choose|e: int| #[trigger]
                    fx.starts(e, p) && part == (Task::Top {
                        p,
                        i,
                        a,
                        rel: fx.events[e].relation,
                        meta: fx.events[e].meta,
                    });
                lemma_fired_behind(nodes, events, from, all, w, i, a, e);
                assert(event_ok(nodes, events[e]));
                lemma_meta_inner(nodes, events[e].meta_at_top);
                assert(leads_behind(all, from, w, part));
            } else {
                let (e, j) = choose|e: int, j: u32|
                    fx.starts(e, p) && inhabited(#[trigger] added(fx, p, i, a, e, j)) && part == (
                    Task::Value {
                        p,
                        held: held.union(prefixed(j, added(fx, p, i, a, e, j))),
                        i,
                        a,
                    });
                lemma_fired_behind(nodes, events, from, all, w, i, a, e);
                let more = added(fx, p, i, a, e, j);
                assert forall|x: Seq<u32>| prefixed(j, more).contains(x) implies u.contains(x) by {
                    lemma_uncons(x);
                    assert(fx.fired(p, i, a, e).contains(x));
                }
                assert(leads_behind(all, from, w, part));
            }
        },
        Task::Top { p, i, a, rel, meta } => {
            lemma_image_rest(prefixed(i, a), rel, meta, i, u);
            assert forall|x: Seq<u32>| tails(prefixed(i, a), i).contains(x) == a.contains(x) by {
                lemma_cons(i, x);
            }
            assert(tails(prefixed(i, a), i) =~= a);
            if part is Fire {
                assert(tails(u, i) == behind(all, w.push(i)));
                assert(leads_behind(all, from, w.push(i), part));
            } else {
                assert(leads_behind(all, from, w, part));
            }
        },
        Task::Values { p, a, rel, meta } => {
            let v = choose|v: u32|
                inhabited(#[trigger] tails(rel, v)) && part == (Task::Fire {
                    p: p + 1,
                    a,
                    rel: tails(rel, v),
                    meta,
                });
            lemma_written_rest(a, rel, meta, v, u);
            assert(tails(u, v) == behind(all, w.push(v)));
            assert(leads_behind(all, from, w.push(v), part));
        },
        Task::Fire { p, a, rel, meta } => {
            lemma_behind_reach(nodes, events, from, all, w, p + 1, image(a, rel, meta));
            assert(leads_behind(all, from, w, part));
        },
        Task::Step { p, a, rel, meta } => {
            if part is Step {
                assert forall|v: u32| image(#[trigger] beyond(a, v), rel, meta).subset_of(u) by {
                    lemma_image_beyond(a, rel, meta, v);
                }
                assert forall|v: u32| image(a, #[trigger] beyond(rel, v), meta).subset_of(u) by {
                    lemma_image_beyond(a, rel, meta, v);
                }
                assert(leads_behind(all, from, w, part));
            } else {
                let v = choose|v: u32|
                    inhabited(#[trigger] tails(a, v)) && step_continues(p, a, rel, meta, v, part);
                lemma_image_rest(a, rel, meta, v, u);
                if part is Fire {
                    assert(tails(u, v) == behind(all, w.push(v)));
                    assert(leads_behind(all, from, w.push(v), part));
                } else {
                    assert(leads_behind(all, from, w, part));
                }
            }
        },
        Task::Write { p, a, rel, meta } => {
            if part is Write {
                assert forall|v: u32| written(a, #[trigger] beyond(rel, v), meta).subset_of(u) by {
                    lemma_image_beyond(a, rel, meta, v);
                }
                assert(leads_behind(all, from, w, part));
            } else {
                let v = choose|v: u32|
                    inhabited(#[trigger] tails(rel, v)) && part == (Task::Fire {
                        p: p + 1,
                        a,
                        rel: tails(rel, v),
                        meta,
                    });
                lemma_written_rest(a, rel, meta, v, u);
                assert(tails(u, v) == behind(all, w.push(v)));
                assert(leads_behind(all, from, w.push(v), part));
            }
        },
    }
}

/// The sets that a task builds are behind some prefix.
proof fn lemma_leads_built(
    nodes: Seq<LDDNode>,
    events: Seq<SaturationEvent>,
    from: int,
    all: Set<Seq<u32>>,
    task: Task,
    s: Set<Seq<u32>>,
) -> (w: Seq<u32>)
    requires
        forall|x: Seq<u32>, y: Seq<u32>|
            all.contains(x) && #[trigger] can_step(nodes, events, from, from, x, y) ==> all.contains(
                y,
            ),
        leads_within(all, from, task),
        builds(effects(nodes, events), task, s),
    ensures
        s.subset_of(behind(all, w)),
{
    reveal(builds);
    let fx = effects(nodes, events);
    let w = choose|w: Seq<u32>| #[trigger] leads_behind(all, from, w, task);
    let u = behind(all, w);
    match task {
        Task::Saturate { p, s: t } => {
            lemma_behind_reach(nodes, events, from, all, w, p, t);
            w
        },
        Task::Value { p, held, i, a } => {
            let (e, j) = choose|e: int, j: u32|
                fx.starts(e, p) && inhabited(#[trigger] added(fx, p, i, a, e, j)) && inhabited(
                    tails(held, j),
                ) && s == tails(held, j).union(added(fx, p, i, a, e, j));
            lemma_fired_behind(nodes, events, from, all, w, i, a, e);
            lemma_behind_tails(all, w, j);
            assert(tails(held, j).subset_of(tails(u, j)));
            assert(added(fx, p, i, a, e, j).subset_of(tails(u, j)));
            w.push(j)
        },
        Task::Step { p, a, rel, meta } => {
            lemma_behind_reach(nodes, events, from, all, w, p + 1, image(a, rel, meta));
            w
        },
        Task::Write { p, a, rel, meta } => {
            lemma_behind_reach(nodes, events, from, all, w, p + 1, written(a, rel, meta));
            w
        },
        _ => w,
    }
}

/// If saturation returns an error, the store lacks an edge that is needed: there is a prefix, and a
/// set of vectors that reachable vectors continue with behind that prefix, such that no edge stands
/// for that set.
pub proof fn law_saturation_missing(
    before: Seq<LDDNode>,
    events: Seq<SaturationEvent>,
    nodes: Seq<LDDNode>,
    p: int,
    s: Set<Seq<u32>>,
) -> (missing: (Seq<u32>, Set<Seq<u32>>))
    requires
        is_ldd(before),
        events_ok(before, events, p),
        lacks(nodes, effects(before, events), (Task::Saturate { p, s })),
    ensures
        forall|y: Seq<u32>| #[trigger]
            missing.1.contains(y) ==> reachable(before, events, p, p, s).contains(missing.0 + y),
        forall|e: LDDEdge| #[trigger]
            e.id < nodes.len() + 2 ==> exists|x: Seq<u32>| #[trigger]
                vectors(nodes, e).contains(x) != missing.1.contains(x),
{
    reveal(lacks);
    let fx = effects(before, events);
    let task = Task::Saturate { p, s };
    let all = reachable(before, events, p, p, s);
    let rel = step_rel(before, events, p, p);
    lemma_closure_closed(rel, s);
    assert forall|x: Seq<u32>, y: Seq<u32>|
        all.contains(x) && #[trigger] can_step(before, events, p, p, x, y) implies all.contains(
        y,
    ) by {
        assert(rel(x, y));
    }
    let within = Set::new(|t: Task| leads_within(all, p, t));
    assert(leads_within(all, p, task)) by {
        let none = Seq::<u32>::empty();
        assert forall|x: Seq<u32>| s.contains(x) implies behind(all, none).contains(x) by {
            assert(none + x =~= x);
        }
        assert(leads_behind(all, p, none, task));
    }
    assert forall|x: Task, y: Task| within.contains(x) && #[trigger] is_part(
        fx,
        x,
        y,
    ) implies within.contains(y) by {
        lemma_leads_part(before, events, p, all, x, y);
    }
    let (sub, t) = choose|sub: Task, t: Set<Seq<u32>>|
        involves(fx, task, sub) && #[trigger] builds(fx, sub, t) && absent(nodes, t);
    lemma_involves_only(fx, task, within, sub);
    let w = lemma_leads_built(before, events, p, all, sub, t);
    assert forall|e: LDDEdge| #[trigger] e.id < nodes.len() + 2 implies exists|x: Seq<u32>|
     #[trigger] vectors(nodes, e).contains(x) != t.contains(x) by {
        assert(valid(nodes, e));
        if forall|x: Seq<u32>| #[trigger] vectors(nodes, e).contains(x) == t.contains(x) {
            assert(vectors(nodes, e) =~= t);
        }
    }
    (w, t)
}

} // verus!
