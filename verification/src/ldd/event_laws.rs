//! Laws of events: what they do to each position, and what saturation makes of them.

use super::closure::{lemma_closure_closed, lemma_closure_least};
use super::demand::{is_still, lemma_still_reachable};
use super::firing::{
    can_step, event_known, event_ok, event_step, events_known, events_ok, fires, lemma_meta_inner,
    meta_of, meta_ok, reachable, step_rel, tails, SaturationEvent, NOT_IN_RELATION, READ_OF_PAIR,
    READ_ONLY, WRITE_OF_PAIR, WRITE_ONLY,
};
use super::manager::{memoised, LDDKey, LDDManager};
use super::semantics::{
    above, absent, cons, empty, fits, height, is_inner, is_ldd, lemma_cons, lemma_extends,
    lemma_member_above, lemma_member_len, lemma_nonempty, lemma_uncons, node_of, node_ok, prefixed,
    unit, valid, vectors, LDDEdge, LDDNode,
};
use crate::util::{AllocResult, OutOfMemory};
use vstd::prelude::*;

verus! {

// ---------------------------------------------------------------------------------------------
// The entries of a meta vector

/// The numbers that say how a position takes part.
pub proof fn law_meta_numbers()
    ensures
        NOT_IN_RELATION == 0,
        READ_ONLY == 1,
        WRITE_ONLY == 2,
        READ_OF_PAIR == 3,
        WRITE_OF_PAIR == 4,
{
}

/// A meta vector is fine exactly if there is no other number in it, and the entries of pairs stand
/// side by side.
pub proof fn law_meta_entries(meta: Seq<u32>)
    ensures
        meta_ok(meta) <==> forall|j: int|
            0 <= j < meta.len() ==> {
                &&& (#[trigger] meta[j]) <= 4
                &&& meta[j] == 3 ==> j + 1 < meta.len() && meta[j + 1] == 4
                &&& meta[j] == 4 ==> j > 0 && meta[j - 1] == 3
            },
    decreases meta.len(),
{
    if meta.len() > 0 {
        let one = meta.drop_first();
        let two = one.drop_first();
        law_meta_entries(one);
        let fine = forall|j: int|
            0 <= j < meta.len() ==> {
                &&& (#[trigger] meta[j]) <= 4
                &&& meta[j] == 3 ==> j + 1 < meta.len() && meta[j + 1] == 4
                &&& meta[j] == 4 ==> j > 0 && meta[j - 1] == 3
            };
        if meta[0] < 3 {
            if meta_ok(meta) {
                assert forall|j: int| 0 <= j < meta.len() implies {
                    &&& (#[trigger] meta[j]) <= 4
                    &&& meta[j] == 3 ==> j + 1 < meta.len() && meta[j + 1] == 4
                    &&& meta[j] == 4 ==> j > 0 && meta[j - 1] == 3
                } by {
                    if j > 0 {
                        assert(one[j - 1] == meta[j]);
                    }
                }
            }
            if fine {
                assert forall|j: int| 0 <= j < one.len() implies {
                    &&& (#[trigger] one[j]) <= 4
                    &&& one[j] == 3 ==> j + 1 < one.len() && one[j + 1] == 4
                    &&& one[j] == 4 ==> j > 0 && one[j - 1] == 3
                } by {
                    assert(one[j] == meta[j + 1]);
                }
            }
        } else if meta[0] == 3 && meta.len() >= 2 && meta[1] == 4 {
            law_meta_entries(two);
            if meta_ok(meta) {
                assert forall|j: int| 0 <= j < meta.len() implies {
                    &&& (#[trigger] meta[j]) <= 4
                    &&& meta[j] == 3 ==> j + 1 < meta.len() && meta[j + 1] == 4
                    &&& meta[j] == 4 ==> j > 0 && meta[j - 1] == 3
                } by {
                    if j > 1 {
                        assert(two[j - 2] == meta[j]);
                    }
                }
            }
            if fine {
                assert forall|j: int| 0 <= j < two.len() implies {
                    &&& (#[trigger] two[j]) <= 4
                    &&& two[j] == 3 ==> j + 1 < two.len() && two[j + 1] == 4
                    &&& two[j] == 4 ==> j > 0 && two[j - 1] == 3
                } by {
                    assert(two[j] == meta[j + 2]);
                }
            }
        } else {
            assert(!meta_ok(meta));
            assert(!fine) by {
                assert(meta[0] >= 3);
            }
        }
    }
}

/// The vector of a meta edge is the one along the down-edges, which is a vector of that edge; so it is
/// the only one if there is no other.
pub proof fn law_meta_vector(nodes: Seq<LDDNode>, e: LDDEdge)
    requires
        is_ldd(nodes),
        valid(nodes, e),
        e.id != 0,
    ensures
        vectors(nodes, e).contains(meta_of(nodes, e)),
        e.id >= 2 ==> meta_of(nodes, e) == seq![nodes[e.id - 2].value] + meta_of(
            nodes,
            nodes[e.id - 2].down,
        ),
    decreases e.id,
{
    if e.id >= 2 {
        assert(node_ok(nodes, e.id - 2));
        let n = nodes[e.id - 2];
        law_meta_vector(nodes, n.down);
        lemma_meta_inner(nodes, e);
    }
}

/// Events can be fired exactly if they refer to nodes of the diagram.
pub proof fn law_events_known(nodes: Seq<LDDNode>, events: Seq<SaturationEvent>)
    ensures
        events_known(nodes, events) <==> forall|i: int|
            0 <= i < events.len() ==> (#[trigger] events[i]).meta_at_top.id < nodes.len() + 2
                && events[i].relation.id < nodes.len() + 2,
{
    if events_known(nodes, events) {
        assert forall|i: int| 0 <= i < events.len() implies (#[trigger] events[i]).meta_at_top.id
            < nodes.len() + 2 && events[i].relation.id < nodes.len() + 2 by {
            assert(event_known(nodes, events[i]));
        }
    }
}

/// The events that start at a position or below can be fired exactly if they refer to nodes of the
/// diagram, their meta vectors are fine, and these do not start with "not touched".
pub proof fn law_events_ok(nodes: Seq<LDDNode>, events: Seq<SaturationEvent>, p: int)
    ensures
        events_ok(nodes, events, p) <==> forall|i: int|
            0 <= i < events.len() && (#[trigger] events[i]).top >= p ==> {
                &&& 2 <= events[i].meta_at_top.id < nodes.len() + 2
                &&& events[i].relation.id < nodes.len() + 2
                &&& meta_ok(meta_of(nodes, events[i].meta_at_top))
                &&& nodes[events[i].meta_at_top.id - 2].value != 0
            },
{
    if events_ok(nodes, events, p) {
        assert forall|i: int| 0 <= i < events.len() && (#[trigger] events[i]).top >= p implies {
            &&& 2 <= events[i].meta_at_top.id < nodes.len() + 2
            &&& events[i].relation.id < nodes.len() + 2
            &&& meta_ok(meta_of(nodes, events[i].meta_at_top))
            &&& nodes[events[i].meta_at_top.id - 2].value != 0
        } by {
            assert(event_ok(nodes, events[i]));
        }
    }
}

// ---------------------------------------------------------------------------------------------
// Firing, position by position

/// `at` and `from` count the positions and the components in front of each entry of `meta`.
spec fn counts(meta: Seq<u32>, at: Seq<int>, from: Seq<int>) -> bool {
    &&& at.len() == meta.len() + 1
    &&& from.len() == meta.len() + 1
    &&& forall|j: int|
        0 <= j < meta.len() ==> {
            &&& at[j + 1] == at[j] + if (#[trigger] meta[j]) == 4 {
                0int
            } else {
                1int
            }
            &&& from[j + 1] == from[j] + if meta[j] == 0 {
                0int
            } else {
                1int
            }
        }
}

/// Counts do not go down.
proof fn lemma_counts_grow(meta: Seq<u32>, at: Seq<int>, from: Seq<int>, i: int, j: int)
    requires
        counts(meta, at, from),
        0 <= i <= j < at.len(),
    ensures
        at[i] <= at[j],
        from[i] <= from[j],
    decreases j - i,
{
    if i < j {
        lemma_counts_grow(meta, at, from, i, j - 1);
        let k = j - 1;
        assert(at[k + 1] == at[k] + if meta[k] == 4 {
            0int
        } else {
            1int
        });
    }
}

/// What the entry at `j` says of the vectors `x` and `y` and the transition `r`.
spec fn entry_holds(
    meta: Seq<u32>,
    r: Seq<u32>,
    x: Seq<u32>,
    y: Seq<u32>,
    at: Seq<int>,
    from: Seq<int>,
    j: int,
) -> bool {
    &&& meta[j] == 0 ==> y[at[j]] == x[at[j]]
    &&& meta[j] == 1 ==> x[at[j]] == r[from[j]] && y[at[j]] == x[at[j]]
    &&& meta[j] == 2 ==> y[at[j]] == r[from[j]]
    &&& meta[j] == 3 ==> x[at[j]] == r[from[j]]
    &&& meta[j] == 4 ==> y[at[j] - 1] == r[from[j]]
}

/// Every entry holds, and the components behind those that `meta` speaks of are the same.
spec fn moves(
    meta: Seq<u32>,
    r: Seq<u32>,
    x: Seq<u32>,
    y: Seq<u32>,
    at: Seq<int>,
    from: Seq<int>,
) -> bool {
    &&& x.len() == y.len()
    &&& at.last() <= x.len()
    &&& from.last() <= r.len()
    &&& forall|j: int|
        0 <= j < meta.len() ==> #[trigger] entry_holds(meta, r, x, y, at, from, j)
    &&& forall|i: int| at.last() <= i < x.len() ==> #[trigger] y[i] == x[i]
}

/// The counts for the entries behind the first `n`.
spec fn shifted(count: Seq<int>, n: int) -> Seq<int> {
    Seq::new((count.len() - n) as nat, |j: int| count[j + n] - count[n])
}

/// The counts behind the first entry or the first pair.
proof fn lemma_counts_shift(meta: Seq<u32>, at: Seq<int>, from: Seq<int>, n: int)
    requires
        counts(meta, at, from),
        meta_ok(meta),
        meta.len() > 0,
        at[0] == 0,
        from[0] == 0,
        n == if meta[0] == 3 {
            2int
        } else {
            1int
        },
    ensures
        n <= meta.len(),
        meta_ok(meta.skip(n)),
        at[n] == 1,
        from[n] == if meta[0] == 0 {
            0int
        } else {
            n
        },
        counts(meta.skip(n), shifted(at, n), shifted(from, n)),
        shifted(at, n)[0] == 0,
        shifted(from, n)[0] == 0,
        shifted(at, n).last() == at.last() - 1,
        shifted(from, n).last() == from.last() - from[n],
        at.last() >= 1,
        from.last() >= from[n],
{
    let rest = meta.skip(n);
    let a = shifted(at, n);
    let f = shifted(from, n);
    assert(meta[0] < 5);
    assert(at[1] == 1);
    assert(from[1] == if meta[0] == 0 {
        0int
    } else {
        1int
    });
    if n == 2 {
        assert(meta[1] == 4);
        assert(at[2] == 1);
        assert(from[2] == 2);
        assert(rest =~= meta.drop_first().drop_first());
    } else {
        assert(rest =~= meta.drop_first());
    }
    assert forall|j: int| 0 <= j < rest.len() implies {
        &&& a[j + 1] == a[j] + if (#[trigger] rest[j]) == 4 {
            0int
        } else {
            1int
        }
        &&& f[j + 1] == f[j] + if rest[j] == 0 {
            0int
        } else {
            1int
        }
    } by {
        assert(rest[j] == meta[j + n]);
        assert(at[j + n + 1] == at[j + n] + if meta[j + n] == 4 {
            0int
        } else {
            1int
        });
    }
    lemma_counts_grow(meta, at, from, n, at.len() - 1);
}

/// An entry behind the first one or the first pair.
proof fn lemma_entry_shift(
    meta: Seq<u32>,
    r: Seq<u32>,
    x: Seq<u32>,
    y: Seq<u32>,
    at: Seq<int>,
    from: Seq<int>,
    n: int,
    j: int,
)
    requires
        counts(meta, at, from),
        meta_ok(meta),
        meta.len() > 0,
        at[0] == 0,
        from[0] == 0,
        n == if meta[0] == 3 {
            2int
        } else {
            1int
        },
        x.len() == y.len(),
        at.last() <= x.len(),
        from.last() <= r.len(),
        n <= j < meta.len(),
    ensures
        entry_holds(meta, r, x, y, at, from, j) == entry_holds(
            meta.skip(n),
            r.skip(from[n]),
            x.skip(1),
            y.skip(1),
            shifted(at, n),
            shifted(from, n),
            j - n,
        ),
{
    lemma_counts_shift(meta, at, from, n);
    let k = j - n;
    let rest = meta.skip(n);
    let a = shifted(at, n);
    let f = shifted(from, n);
    lemma_counts_grow(meta, at, from, n, j);
    lemma_counts_grow(meta, at, from, j + 1, at.len() - 1);
    assert(rest[k] == meta[j]);
    assert(a[k] == at[j] - 1);
    assert(f[k] == from[j] - from[n]);
    if meta[j] != 0 {
        assert(r.skip(from[n])[f[k]] == r[from[j]]);
    }
    if meta[j] == 4 {
        law_meta_entries(rest);
        assert(rest[k - 1] == 3);
        assert(meta[j - 1] == 3);
        lemma_counts_grow(meta, at, from, n, j - 1);
        assert(at[j] == at[j - 1] + 1);
        assert(y.skip(1)[a[k] - 1] == y[at[j] - 1]);
    } else {
        assert(y.skip(1)[a[k]] == y[at[j]]);
        assert(x.skip(1)[a[k]] == x[at[j]]);
    }
}

/// The first entry or the first pair is dealt with, and then the others.
proof fn lemma_moves_shift(
    meta: Seq<u32>,
    r: Seq<u32>,
    x: Seq<u32>,
    y: Seq<u32>,
    at: Seq<int>,
    from: Seq<int>,
    n: int,
)
    requires
        counts(meta, at, from),
        meta_ok(meta),
        meta.len() > 0,
        at[0] == 0,
        from[0] == 0,
        n == if meta[0] == 3 {
            2int
        } else {
            1int
        },
        x.len() > 0,
        y.len() > 0,
        from[n] <= r.len(),
    ensures
        moves(meta, r, x, y, at, from) <==> {
            &&& meta[0] == 0 ==> y[0] == x[0]
            &&& meta[0] == 1 ==> x[0] == r[0] && y[0] == x[0]
            &&& meta[0] == 2 ==> y[0] == r[0]
            &&& meta[0] == 3 ==> x[0] == r[0] && y[0] == r[1]
            &&& moves(
                meta.skip(n),
                r.skip(from[n]),
                x.skip(1),
                y.skip(1),
                shifted(at, n),
                shifted(from, n),
            )
        },
{
    lemma_counts_shift(meta, at, from, n);
    let rest = meta.skip(n);
    let rr = r.skip(from[n]);
    let xx = x.skip(1);
    let yy = y.skip(1);
    let a = shifted(at, n);
    let f = shifted(from, n);
    let fits = x.len() == y.len() && at.last() <= x.len() && from.last() <= r.len();
    if n == 2 {
        assert(meta[1] == 4);
        assert(meta[0] == 3);
        assert(at[1] == 1);
        assert(from[1] == 1);
    }
    if moves(meta, r, x, y, at, from) {
        assert(entry_holds(meta, r, x, y, at, from, 0));
        if n == 2 {
            assert(entry_holds(meta, r, x, y, at, from, 1));
        }
        assert forall|k: int| 0 <= k < rest.len() implies #[trigger] entry_holds(
            rest,
            rr,
            xx,
            yy,
            a,
            f,
            k,
        ) by {
            assert(entry_holds(meta, r, x, y, at, from, k + n));
            lemma_entry_shift(meta, r, x, y, at, from, n, k + n);
        }
        assert forall|i: int| a.last() <= i < xx.len() implies #[trigger] yy[i] == xx[i] by {
            assert(y[i + 1] == x[i + 1]);
        }
    }
    if moves(rest, rr, xx, yy, a, f) {
        assert forall|j: int| n <= j < meta.len() implies #[trigger] entry_holds(
            meta,
            r,
            x,
            y,
            at,
            from,
            j,
        ) by {
            assert(entry_holds(rest, rr, xx, yy, a, f, j - n));
            lemma_entry_shift(meta, r, x, y, at, from, n, j);
        }
        assert forall|i: int| at.last() <= i < x.len() implies #[trigger] y[i] == x[i] by {
            assert(yy[i - 1] == xx[i - 1]);
        }
    }
}

/// Firing and [`moves`] are the same.
proof fn lemma_fires_moves(
    meta: Seq<u32>,
    r: Seq<u32>,
    x: Seq<u32>,
    y: Seq<u32>,
    at: Seq<int>,
    from: Seq<int>,
)
    requires
        meta_ok(meta),
        counts(meta, at, from),
        at[0] == 0,
        from[0] == 0,
    ensures
        fires(meta, r, x, y) <==> moves(meta, r, x, y, at, from),
    decreases meta.len(),
{
    if meta.len() == 0 {
        if moves(meta, r, x, y, at, from) {
            assert(x =~= y);
        }
    } else {
        let n: int = if meta[0] == 3 {
            2
        } else {
            1
        };
        lemma_counts_shift(meta, at, from, n);
        if x.len() > 0 && y.len() > 0 && from[n] <= r.len() {
            lemma_moves_shift(meta, r, x, y, at, from, n);
            let rest = meta.skip(n);
            let rr = r.skip(from[n]);
            lemma_fires_moves(rest, rr, x.skip(1), y.skip(1), shifted(at, n), shifted(from, n));
            assert(x.skip(1) =~= x.drop_first());
            assert(y.skip(1) =~= y.drop_first());
            if n == 2 {
                assert(rest =~= meta.drop_first().drop_first());
                assert(rr =~= r.drop_first().drop_first());
            } else {
                assert(rest =~= meta.drop_first());
                if meta[0] == 0 {
                    assert(rr =~= r);
                } else {
                    assert(rr =~= r.drop_first());
                }
            }
        }
    }
}

/// Which transitions lead from `x` to `y`, entry by entry of `meta`. The entry at `j` speaks of the
/// position `at[j]` and, unless it is "not touched", of the component `from[j]` of the transition: a
/// pair speaks of one position, and of two components.
///
/// A position that is not touched keeps its value. One that is read has the value that the transition
/// lists, and keeps it unless it is the first of a pair. One that is written gets the value that the
/// transition lists. All positions behind keep their values.
pub proof fn law_fires(
    meta: Seq<u32>,
    r: Seq<u32>,
    x: Seq<u32>,
    y: Seq<u32>,
    at: Seq<int>,
    from: Seq<int>,
)
    requires
        meta_ok(meta),
        at.len() == meta.len() + 1,
        from.len() == meta.len() + 1,
        at[0] == 0,
        from[0] == 0,
        forall|j: int|
            0 <= j < meta.len() ==> at[j + 1] == at[j] + if (#[trigger] meta[j]) == 4 {
                0int
            } else {
                1int
            },
        forall|j: int|
            0 <= j < meta.len() ==> from[j + 1] == from[j] + if (#[trigger] meta[j]) == 0 {
                0int
            } else {
                1int
            },
    ensures
        fires(meta, r, x, y) <==> {
            &&& x.len() == y.len()
            &&& at.last() <= x.len()
            &&& from.last() <= r.len()
            &&& forall|j: int|
                0 <= j < meta.len() ==> {
                    &&& (#[trigger] meta[j]) == 0 ==> y[at[j]] == x[at[j]]
                    &&& meta[j] == 1 ==> x[at[j]] == r[from[j]] && y[at[j]] == x[at[j]]
                    &&& meta[j] == 2 ==> y[at[j]] == r[from[j]]
                    &&& meta[j] == 3 ==> x[at[j]] == r[from[j]]
                    &&& meta[j] == 4 ==> y[at[j] - 1] == r[from[j]]
                }
            &&& forall|i: int| at.last() <= i < x.len() ==> #[trigger] y[i] == x[i]
        },
{
    lemma_fires_moves(meta, r, x, y, at, from);
    if fires(meta, r, x, y) {
        assert forall|j: int| 0 <= j < meta.len() implies {
            &&& (#[trigger] meta[j]) == 0 ==> y[at[j]] == x[at[j]]
            &&& meta[j] == 1 ==> x[at[j]] == r[from[j]] && y[at[j]] == x[at[j]]
            &&& meta[j] == 2 ==> y[at[j]] == r[from[j]]
            &&& meta[j] == 3 ==> x[at[j]] == r[from[j]]
            &&& meta[j] == 4 ==> y[at[j] - 1] == r[from[j]]
        } by {
            assert(entry_holds(meta, r, x, y, at, from, j));
        }
    }
}

/// Which steps an event allows, entry by entry of its meta vector. The entry at `j` speaks of the
/// component `at[j]` of the vectors, counted from the one that stands for the position `top`, and of
/// the component `from[j]` of a transition.
///
/// Everything in front of `top` and behind the last entry keeps its value, and so does a position that
/// is read only. A position that is written gets the value that the transition lists for it.
pub proof fn law_event_step(
    nodes: Seq<LDDNode>,
    event: SaturationEvent,
    p: int,
    x: Seq<u32>,
    y: Seq<u32>,
    at: Seq<int>,
    from: Seq<int>,
)
    requires
        meta_ok(meta_of(nodes, event.meta_at_top)),
        at.len() == meta_of(nodes, event.meta_at_top).len() + 1,
        from.len() == meta_of(nodes, event.meta_at_top).len() + 1,
        at[0] == event.top - p,
        from[0] == 0,
        forall|j: int|
            0 <= j < at.len() - 1 ==> at[j + 1] == at[j] + if (#[trigger] meta_of(
                nodes,
                event.meta_at_top,
            )[j]) == 4 {
                0int
            } else {
                1int
            },
        forall|j: int|
            0 <= j < at.len() - 1 ==> from[j + 1] == from[j] + if (#[trigger] meta_of(
                nodes,
                event.meta_at_top,
            )[j]) == 0 {
                0int
            } else {
                1int
            },
    ensures
        event_step(nodes, event, p, x, y) <==> {
            let meta = meta_of(nodes, event.meta_at_top);
            &&& p <= event.top
            &&& x.len() == y.len()
            &&& at.last() <= x.len()
            &&& forall|i: int| 0 <= i < event.top - p ==> #[trigger] y[i] == x[i]
            &&& forall|i: int| at.last() <= i < x.len() ==> #[trigger] y[i] == x[i]
            &&& exists|r: Seq<u32>| #[trigger]
                vectors(nodes, event.relation).contains(r) && from.last() <= r.len() && forall|
                    j: int,
                |
                    0 <= j < meta.len() ==> {
                        &&& (#[trigger] meta[j]) == 0 ==> y[at[j]] == x[at[j]]
                        &&& meta[j] == 1 ==> x[at[j]] == r[from[j]] && y[at[j]] == x[at[j]]
                        &&& meta[j] == 2 ==> y[at[j]] == r[from[j]]
                        &&& meta[j] == 3 ==> x[at[j]] == r[from[j]]
                        &&& meta[j] == 4 ==> y[at[j] - 1] == r[from[j]]
                    }
        },
{
    let meta = meta_of(nodes, event.meta_at_top);
    let k = event.top - p;
    let a = shifted(at, 0);
    assert(a.last() == at.last() - k);
    assert(counts(meta, at, from));
    assert forall|j: int| 0 <= j < meta.len() implies a[j + 1] == a[j] + if (#[trigger] meta[j])
        == 4 {
        0int
    } else {
        1int
    } by {
        assert(at[j + 1] == at[j] + if meta[j] == 4 {
            0int
        } else {
            1int
        });
    }
    assert(counts(meta, a, from));
    lemma_counts_grow(meta, at, from, 0, at.len() - 1);
    if 0 <= k <= x.len() && x.len() == y.len() && at.last() <= x.len() {
        let xx = x.skip(k);
        let yy = y.skip(k);
        assert forall|r: Seq<u32>, j: int|
            0 <= j < meta.len() && from.last() <= r.len() implies #[trigger] entry_holds(
            meta,
            r,
            xx,
            yy,
            a,
            from,
            j,
        ) == entry_holds(meta, r, x, y, at, from, j) by {
            lemma_counts_grow(meta, at, from, 0, j);
            lemma_counts_grow(meta, at, from, j + 1, at.len() - 1);
            assert(a[j] == at[j] - k);
            if meta[j] == 4 {
                law_meta_entries(meta);
                assert(meta[j - 1] == 3);
                lemma_counts_grow(meta, at, from, 0, j - 1);
                assert(at[j] == at[j - 1] + 1);
                assert(yy[a[j] - 1] == y[at[j] - 1]);
            } else {
                assert(at[j + 1] == at[j] + 1);
                assert(yy[a[j]] == y[at[j]]);
                assert(xx[a[j]] == x[at[j]]);
            }
        }
        if event_step(nodes, event, p, x, y) {
            let r = choose|r: Seq<u32>|
                vectors(nodes, event.relation).contains(r) && #[trigger] fires(meta, r, xx, yy);
            lemma_fires_moves(meta, r, xx, yy, a, from);
            assert forall|j: int| 0 <= j < meta.len() implies {
                &&& (#[trigger] meta[j]) == 0 ==> y[at[j]] == x[at[j]]
                &&& meta[j] == 1 ==> x[at[j]] == r[from[j]] && y[at[j]] == x[at[j]]
                &&& meta[j] == 2 ==> y[at[j]] == r[from[j]]
                &&& meta[j] == 3 ==> x[at[j]] == r[from[j]]
                &&& meta[j] == 4 ==> y[at[j] - 1] == r[from[j]]
            } by {
                assert(entry_holds(meta, r, xx, yy, a, from, j));
                assert(entry_holds(meta, r, x, y, at, from, j));
            }
            assert forall|i: int| 0 <= i < k implies #[trigger] y[i] == x[i] by {
                assert(x.take(k)[i] == y.take(k)[i]);
            }
            assert forall|i: int| at.last() <= i < x.len() implies #[trigger] y[i] == x[i] by {
                assert(yy[i - k] == xx[i - k]);
            }
        }
        if {
            &&& forall|i: int| 0 <= i < k ==> #[trigger] y[i] == x[i]
            &&& forall|i: int| at.last() <= i < x.len() ==> #[trigger] y[i] == x[i]
            &&& exists|r: Seq<u32>| #[trigger]
                vectors(nodes, event.relation).contains(r) && from.last() <= r.len() && forall|
                    j: int,
                |
                    0 <= j < meta.len() ==> {
                        &&& (#[trigger] meta[j]) == 0 ==> y[at[j]] == x[at[j]]
                        &&& meta[j] == 1 ==> x[at[j]] == r[from[j]] && y[at[j]] == x[at[j]]
                        &&& meta[j] == 2 ==> y[at[j]] == r[from[j]]
                        &&& meta[j] == 3 ==> x[at[j]] == r[from[j]]
                        &&& meta[j] == 4 ==> y[at[j] - 1] == r[from[j]]
                    }
        } {
            let r = choose|r: Seq<u32>| #[trigger]
                vectors(nodes, event.relation).contains(r) && from.last() <= r.len() && forall|
                    j: int,
                |
                    0 <= j < meta.len() ==> {
                        &&& (#[trigger] meta[j]) == 0 ==> y[at[j]] == x[at[j]]
                        &&& meta[j] == 1 ==> x[at[j]] == r[from[j]] && y[at[j]] == x[at[j]]
                        &&& meta[j] == 2 ==> y[at[j]] == r[from[j]]
                        &&& meta[j] == 3 ==> x[at[j]] == r[from[j]]
                        &&& meta[j] == 4 ==> y[at[j] - 1] == r[from[j]]
                    };
            assert forall|j: int| 0 <= j < meta.len() implies #[trigger] entry_holds(
                meta,
                r,
                xx,
                yy,
                a,
                from,
                j,
            ) by {
                assert(meta[j] <= 4 || meta[j] > 4);
                assert(entry_holds(meta, r, x, y, at, from, j));
            }
            assert forall|i: int| a.last() <= i < xx.len() implies #[trigger] yy[i] == xx[i] by {
                assert(y[i + k] == x[i + k]);
            }
            lemma_fires_moves(meta, r, xx, yy, a, from);
            assert(x.take(k) =~= y.take(k));
            assert(event_step(nodes, event, p, x, y));
        }
    } else if event_step(nodes, event, p, x, y) {
        let r = choose|r: Seq<u32>|
            vectors(nodes, event.relation).contains(r) && #[trigger] fires(
                meta,
                r,
                x.skip(k),
                y.skip(k),
            );
        lemma_fires_moves(meta, r, x.skip(k), y.skip(k), a, from);
    }
}

/// A position that an event reads and does not write keeps its value.
pub proof fn law_read_only_kept(
    nodes: Seq<LDDNode>,
    event: SaturationEvent,
    p: int,
    x: Seq<u32>,
    y: Seq<u32>,
    at: Seq<int>,
    j: int,
)
    requires
        meta_ok(meta_of(nodes, event.meta_at_top)),
        event_step(nodes, event, p, x, y),
        at.len() == meta_of(nodes, event.meta_at_top).len() + 1,
        at[0] == event.top - p,
        forall|i: int|
            0 <= i < at.len() - 1 ==> at[i + 1] == at[i] + if (#[trigger] meta_of(
                nodes,
                event.meta_at_top,
            )[i]) == 4 {
                0int
            } else {
                1int
            },
        0 <= j < at.len() - 1,
        meta_of(nodes, event.meta_at_top)[j] == 1,
    ensures
        0 <= at[j] < x.len(),
        x.len() == y.len(),
        y[at[j]] == x[at[j]],
{
    let meta = meta_of(nodes, event.meta_at_top);
    let from = component_counts(meta);
    lemma_component_counts(meta);
    law_event_step(nodes, event, p, x, y, at, from);
    assert(counts(meta, at, from));
    lemma_counts_grow(meta, at, from, 0, j);
    lemma_counts_grow(meta, at, from, j + 1, at.len() - 1);
    assert(at[j + 1] == at[j] + 1);
}

/// The number of components in front of each entry.
spec fn component_counts(meta: Seq<u32>) -> Seq<int>
    decreases meta.len(),
{
    if meta.len() == 0 {
        seq![0int]
    } else {
        let before = component_counts(meta.drop_last());
        before.push(
            before.last() + if meta.last() == 0 {
                0int
            } else {
                1int
            },
        )
    }
}

proof fn lemma_component_counts(meta: Seq<u32>)
    ensures
        component_counts(meta).len() == meta.len() + 1,
        component_counts(meta)[0] == 0,
        forall|j: int|
            0 <= j < meta.len() ==> component_counts(meta)[j + 1] == component_counts(meta)[j] + if (
            #[trigger] meta[j]) == 0 {
                0int
            } else {
                1int
            },
    decreases meta.len(),
{
    if meta.len() > 0 {
        let less = meta.drop_last();
        lemma_component_counts(less);
        let before = component_counts(less);
        assert forall|j: int| 0 <= j < meta.len() implies component_counts(meta)[j + 1]
            == component_counts(meta)[j] + if (#[trigger] meta[j]) == 0 {
            0int
        } else {
            1int
        } by {
            if j < less.len() {
                assert(less[j] == meta[j]);
                assert(before[j + 1] == before[j] + if less[j] == 0 {
                    0int
                } else {
                    1int
                });
            }
        }
    }
}

// ---------------------------------------------------------------------------------------------
// Saturation

/// Saturation yields a superset of the set that no event leads out of, and that is part of every
/// other such set.
pub proof fn law_saturation_closed(
    nodes: Seq<LDDNode>,
    events: Seq<SaturationEvent>,
    p: int,
    s: Set<Seq<u32>>,
)
    ensures
        forall|x: Seq<u32>| #[trigger]
            s.contains(x) ==> reachable(nodes, events, p, p, s).contains(x),
        forall|i: int, x: Seq<u32>, y: Seq<u32>|
            0 <= i < events.len() && events[i].top >= p && reachable(
                nodes,
                events,
                p,
                p,
                s,
            ).contains(x) && #[trigger] event_step(nodes, events[i], p, x, y) ==> reachable(
                nodes,
                events,
                p,
                p,
                s,
            ).contains(y),
        forall|t: Set<Seq<u32>>|
            #![trigger reachable(nodes, events, p, p, s).subset_of(t)]
            (forall|x: Seq<u32>| #[trigger] s.contains(x) ==> t.contains(x)) && (forall|
                i: int,
                x: Seq<u32>,
                y: Seq<u32>,
            |
                0 <= i < events.len() && events[i].top >= p && t.contains(x) && #[trigger]
                    event_step(nodes, events[i], p, x, y) ==> t.contains(y)) ==> reachable(
                nodes,
                events,
                p,
                p,
                s,
            ).subset_of(t),
{
    let rel = step_rel(nodes, events, p, p);
    let all = reachable(nodes, events, p, p, s);
    lemma_closure_closed(rel, s);
    assert forall|i: int, x: Seq<u32>, y: Seq<u32>|
        0 <= i < events.len() && events[i].top >= p && all.contains(x) && #[trigger] event_step(
            nodes,
            events[i],
            p,
            x,
            y,
        ) implies all.contains(y) by {
        assert(can_step(nodes, events, p, p, x, y));
        assert(rel(x, y));
    }
    assert forall|t: Set<Seq<u32>>|
        #![trigger all.subset_of(t)]
        (forall|x: Seq<u32>| #[trigger] s.contains(x) ==> t.contains(x)) && (forall|
            i: int,
            x: Seq<u32>,
            y: Seq<u32>,
        |
            0 <= i < events.len() && events[i].top >= p && t.contains(x) && #[trigger] event_step(
                nodes,
                events[i],
                p,
                x,
                y,
            ) ==> t.contains(y)) implies all.subset_of(t) by {
        assert forall|x: Seq<u32>, y: Seq<u32>| t.contains(x) && #[trigger] rel(
            x,
            y,
        ) implies t.contains(y) by {
            assert(can_step(nodes, events, p, p, x, y));
            let i: int = choose|i: int|
                0 <= i < events.len() && events[i].top >= p && #[trigger] event_step(
                    nodes,
                    events[i],
                    p,
                    x,
                    y,
                );
            assert(event_step(nodes, events[i], p, x, y));
        }
        lemma_closure_least(rel, s, t);
    }
}

/// A set is still exactly if no event that starts at its position or below leads anywhere from one of
/// its vectors; then saturation changes nothing.
pub proof fn law_still(
    nodes: Seq<LDDNode>,
    events: Seq<SaturationEvent>,
    p: int,
    s: Set<Seq<u32>>,
)
    ensures
        is_still(nodes, events, p, s) <==> forall|i: int, x: Seq<u32>, y: Seq<u32>|
            0 <= i < events.len() && events[i].top >= p && s.contains(x) ==> !#[trigger] event_step(
                nodes,
                events[i],
                p,
                x,
                y,
            ),
        is_still(nodes, events, p, s) ==> reachable(nodes, events, p, p, s) == s,
{
    if is_still(nodes, events, p, s) {
        lemma_still_reachable(nodes, events, p, s);
        assert forall|i: int, x: Seq<u32>, y: Seq<u32>|
            0 <= i < events.len() && events[i].top >= p && s.contains(x) implies !#[trigger] event_step(
        nodes, events[i], p, x, y) by {
            assert(!can_step(nodes, events, p, p, x, y));
        }
    }
}

// ---------------------------------------------------------------------------------------------
// Sets of vectors

/// The vectors of the terminals and of the inner nodes.
pub proof fn law_vectors(nodes: Seq<LDDNode>, x: Seq<u32>, i: int)
    requires
        is_ldd(nodes),
        nodes.len() + 2 <= 0x1_0000_0000,
    ensures
        !vectors(nodes, (LDDEdge { id: 0 })).contains(x),
        vectors(nodes, (LDDEdge { id: 1 })).contains(x) <==> x.len() == 0,
        0 <= i < nodes.len() ==> (vectors(nodes, (LDDEdge { id: (i + 2) as u32 })).contains(x) <==> (
        x.len() > 0 && x[0] == nodes[i].value && vectors(nodes, nodes[i].down).contains(x.skip(1)))
            || vectors(nodes, nodes[i].right).contains(x)),
{
    if 0 <= i < nodes.len() {
        assert(node_ok(nodes, i));
        if x.len() > 0 {
            assert(x.skip(1) =~= x.drop_first());
        }
    }
}

/// All vectors of an edge have the same length, and an edge fits a length exactly if that is the length
/// of its vectors.
pub proof fn law_lengths(nodes: Seq<LDDNode>, e: LDDEdge, h: nat)
    requires
        is_ldd(nodes),
        e.id < nodes.len() + 2,
    ensures
        forall|x: Seq<u32>| #[trigger]
            vectors(nodes, e).contains(x) ==> x.len() == height(nodes, e),
        fits(nodes, e, h) <==> forall|x: Seq<u32>| #[trigger]
            vectors(nodes, e).contains(x) ==> x.len() == h,
{
    assert(valid(nodes, e));
    assert forall|x: Seq<u32>| #[trigger] vectors(nodes, e).contains(x) implies x.len() == height(
        nodes,
        e,
    ) by {
        lemma_member_len(nodes, e, x);
    }
    if e.id != 0 {
        let x = lemma_nonempty(nodes, e);
        assert(vectors(nodes, e).contains(x));
    }
}

/// A node can be put in front of an edge exactly if the vectors of the edge start with greater values.
pub proof fn law_above(nodes: Seq<LDDNode>, e: LDDEdge, value: u32)
    requires
        is_ldd(nodes),
        e.id < nodes.len() + 2,
        e.id != 1,
    ensures
        above(nodes, e, value) <==> forall|x: Seq<u32>| #[trigger]
            vectors(nodes, e).contains(x) ==> x.len() > 0 && x[0] > value,
{
    assert(valid(nodes, e));
    if above(nodes, e, value) {
        assert forall|x: Seq<u32>| #[trigger] vectors(nodes, e).contains(x) implies x.len() > 0
            && x[0] > value by {
            lemma_member_above(nodes, e, value, x);
        }
    }
    if e.id >= 2 {
        assert(node_ok(nodes, e.id - 2));
        let n = nodes[e.id - 2];
        let w = lemma_nonempty(nodes, n.down);
        lemma_cons(n.value, w);
        assert(vectors(nodes, e).contains(cons(n.value, w)));
    }
}

/// The vectors with a value put in front of them.
pub proof fn law_prefixed(value: u32, s: Set<Seq<u32>>, x: Seq<u32>)
    ensures
        prefixed(value, s).contains(x) <==> exists|w: Seq<u32>|
            #![trigger s.contains(w)]
            s.contains(w) && x == seq![value] + w,
{
    if prefixed(value, s).contains(x) {
        lemma_uncons(x);
        assert(s.contains(x.drop_first()));
        assert(x == seq![value] + x.drop_first());
    }
    if exists|w: Seq<u32>| #![trigger s.contains(w)] s.contains(w) && x == seq![value] + w {
        let w = choose|w: Seq<u32>| #![trigger s.contains(w)] s.contains(w) && x == seq![value] + w;
        lemma_cons(value, w);
        assert(x == cons(value, w));
    }
}

/// The vectors that start with a value, without it.
pub proof fn law_tails(s: Set<Seq<u32>>, v: u32, w: Seq<u32>)
    ensures
        tails(s, v).contains(w) <==> s.contains(seq![v] + w),
{
}

/// If an operation finds that no edge stands for a set, there is none.
pub proof fn law_absent(nodes: Seq<LDDNode>, s: Set<Seq<u32>>, e: LDDEdge)
    requires
        absent(nodes, s),
        e.id < nodes.len() + 2,
    ensures
        exists|x: Seq<u32>| #[trigger] vectors(nodes, e).contains(x) != s.contains(x),
{
    assert(valid(nodes, e));
    if forall|x: Seq<u32>| #[trigger] vectors(nodes, e).contains(x) == s.contains(x) {
        assert(vectors(nodes, e) =~= s);
    }
}

// ---------------------------------------------------------------------------------------------
// The store

/// An edge belongs to a manager exactly if it refers to a terminal or a node in the store, and the
/// store is full exactly if there are as many nodes as there is room for.
pub proof fn law_store(manager: LDDManager, e: LDDEdge)
    ensures
        manager.has(e) <==> e.id < manager.nodes().len() + 2,
        manager.vectors(e) == vectors(manager.nodes(), e),
        manager.is_full() <==> manager.nodes().len() >= manager.capacity(),
        empty() == (LDDEdge { id: 0 }),
        unit() == (LDDEdge { id: 1 }),
        is_inner(e) <==> e.id >= 2,
        e.id >= 2 ==> node_of(manager.nodes(), e) == manager.nodes()[e.id - 2],
{
}

/// What is in the store stays there, and keeps its meaning.
pub proof fn law_store_grows(before: LDDManager, after: LDDManager)
    requires
        before.wf(),
        before.grows_to(&after),
    ensures
        before.nodes().len() <= after.nodes().len(),
        forall|i: int|
            0 <= i < before.nodes().len() ==> #[trigger] after.nodes()[i] == before.nodes()[i],
        forall|e: LDDEdge|
            e.id < before.nodes().len() + 2 ==> #[trigger] vectors(after.nodes(), e) == vectors(
                before.nodes(),
                e,
            ),
        after.capacity() == before.capacity(),
        after.epochs() == before.epochs(),
{
    lemma_extends(before.nodes(), after.nodes());
}

/// The result of an operation comes out of the apply cache if it is there, and is there afterwards.
pub proof fn law_memoised(
    before: LDDManager,
    after: LDDManager,
    key: LDDKey,
    r: AllocResult<LDDEdge>,
)
    requires
        memoised(before, after, key, r),
    ensures
        before.cached().contains_key(key) ==> r == Ok::<LDDEdge, OutOfMemory>(before.cached()[key])
            && after.nodes() == before.nodes(),
        r matches Ok(e) ==> after.cached().contains_key(key) && after.cached()[key] == e,
{
}

} // verus!
