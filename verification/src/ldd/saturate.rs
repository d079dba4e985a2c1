//! Node-wise saturation.
//!
//! Given a set of vectors and a list of events, saturation computes the vectors that are reachable
//! by firing the events in any order. An event only touches the positions of the vector from its
//! `top` on. Instead of firing all events on the whole set until nothing changes, one *node* at a
//! time is brought to a fixed point under every event confined to its own position and below,
//! bottom-up, before that node is ever used as anyone's child.
//!
//! Positions run from 0 (top) to the bottom of the vectors. The algorithm is due to Ciardo,
//! Marmorstein and Siminiceanu (*The saturation algorithm for symbolic state-space exploration*,
//! STTT 2006).

use super::accumulator::{
    arc_ok, arc_position, arc_search, arcs_above, arcs_ok, arcs_vectors, lemma_arcs_extends,
    lemma_arcs_insert, lemma_arcs_push, lemma_arcs_saturated, lemma_arcs_tails, lemma_arcs_update,
    lemma_missing, lemma_reachable_empty, lemma_reachable_len, lemma_step_weaken, missing, sorted,
    successors_in,
};
use super::apply::{apply_union, lemma_fits, lemma_fits_len, make_node};
use super::closure::{
    lemma_closure_absorbs, lemma_closure_closed, lemma_closure_fixed, lemma_closure_least,
    lemma_closure_union,
};
use super::demand::{
    added, agree_from, effects, end_before, inhabited, involves, is_idle, is_still, lacks,
    lemma_agree_split, lemma_demand_child, lemma_demand_event, lemma_demand_fire, lemma_demand_idle,
    lemma_demand_level, lemma_demand_read, lemma_demand_rest, lemma_demand_saturate,
    lemma_demand_step, lemma_demand_still, lemma_demand_top, lemma_demand_unite,
    lemma_demand_values, lemma_demand_written, lemma_involves_trans, lemma_lacks, lemma_lacks_built,
    lemma_still_reachable, Task,
};
use super::firing::{
    event_ok, events_known, events_ok, image, lemma_events_extends, lemma_image_done,
    lemma_image_empty, lemma_image_len, lemma_image_read, lemma_image_short, lemma_image_single,
    lemma_image_skip, lemma_image_write, lemma_meta_inner, lemma_saturated_parts,
    lemma_written_split, meta_of, meta_ok, reachable, saturated, starts_above, step_rel, tails,
    written, SaturationEvent, NOT_IN_RELATION, READ_ONLY, WRITE_ONLY,
};
use super::level::{
    all_added, finished, finished_but, fired_so_far, has_value, is_added, lemma_added_more,
    lemma_arcs_concat, lemma_arcs_extends_one, lemma_arcs_missing, lemma_fired,
    lemma_finished_but_extends, lemma_finished_extends, lemma_image_within, lemma_level_extends,
    lemma_node_parts, lemma_not_pending, lemma_stable, lemma_successors_extends,
    lemma_terminal_saturated, lemma_union_parts, level_ok, stacked,
};
use super::manager::{entry_ok, memoised, LDDKey, LDDManager, LDDOp, LDDTerminal, Node};
use super::semantics::{
    absent, cons, empty, extends, fits, height, is_inner, is_ldd, lemma_above, lemma_canonical,
    lemma_cons, lemma_inner, lemma_member_len, lemma_nonempty, lemma_terminals, lemma_unmade,
    node_of, prefixed, unit, valid, vectors, LDDEdge,
};
use crate::util::apply_cache::share_slot;
use crate::util::{AllocResult, OutOfMemory};
use vstd::prelude::*;

verus! {

/// Buffers that are shared by every recursive call, such that saturating a node does not allocate.
///
/// All of them are used as stacks: a call remembers the length on entry, only touches the entries
/// above it, and truncates back to that length before returning.
struct Scratch {
    /// The arcs of the node being saturated: its `(value, continuation)` pairs, sorted by value.
    arcs: Vec<(u32, LDDEdge)>,
    /// The values of the node being saturated whose continuation still has to be fired, used as a
    /// queue.
    frontier: Vec<u32>,
    /// The `(value, subtree)` pairs produced by firing the events out of one value.
    fired: Vec<(u32, LDDEdge)>,
}

impl Scratch {
    /// Both have the same contents.
    spec fn same(&self, other: &Scratch) -> bool {
        &&& self.arcs@ == other.arcs@
        &&& self.frontier@ == other.frontier@
        &&& self.fired@ == other.fired@
    }

    /// `other` has the contents of this one, and possibly more on top.
    spec fn below(&self, other: &Scratch) -> bool {
        &&& stacked(self.arcs@, other.arcs@)
        &&& stacked(self.frontier@, other.frontier@)
        &&& stacked(self.fired@, other.fired@)
    }
}

/// Where the node belongs that a step of the relational product continues with.
#[derive(Clone, Copy, PartialEq, Eq, Structural)]
enum Position {
    /// The next position.
    Next,
    /// The same position, further to the right.
    Same,
}

/// The information that stays the same during a whole saturation run.
struct Saturation<'a> {
    /// Every event that can be fired.
    events: &'a [SaturationEvent],
    /// The number that identifies `events`.
    epoch: u32,
}

/// The saturation `r` of `q` comes out of the apply cache if it is there, in which case nothing
/// changes. Otherwise it is there afterwards as its own saturation, and as that of `q` unless both
/// share a slot.
pub open spec fn saturation_memoised(
    before: LDDManager,
    after: LDDManager,
    q: LDDEdge,
    p: u32,
    epoch: u32,
    r: AllocResult<LDDEdge>,
) -> bool {
    let key = saturate_key(q, p, epoch);
    if before.cached().contains_key(key) {
        memoised(before, after, key, r)
    } else {
        r matches Ok(e) ==> {
            let own = saturate_key(e, p, epoch);
            &&& after.cached().contains_key(own)
            &&& after.cached()[own] == e
            &&& e != q && share_slot(key, own, after.cache_slots()) || (
            after.cached().contains_key(key) && after.cached()[key] == e)
        }
    }
}

/// The key of the saturation of `q`, which sits at position `p`.
pub open spec fn saturate_key(q: LDDEdge, p: u32, epoch: u32) -> LDDKey {
    LDDKey { op: LDDOp::Saturate, a: q, b: empty(), c: empty(), epoch, pos: p }
}

/// Tells whether `value` occurs in `values` from `from` on.
fn contains_from(values: &Vec<u32>, from: usize, value: u32) -> (b: bool)
    requires
        from <= values@.len(),
    ensures
        b == values@.skip(from as int).contains(value),
{
    let ghost rest = values@.skip(from as int);
    let mut k: usize = from;
    while k < values.len()
        invariant
            from <= k <= values@.len(),
            rest == values@.skip(from as int),
            forall|x: int| 0 <= x < k - from ==> rest[x] != value,
        decreases values@.len() - k,
    {
        if values[k] == value {
            assert(rest[k - from] == value);
            return true;
        }
        k += 1;
    }
    false
}

/// Unites the continuations `f` of the value `j` into the arcs of the node that is being saturated.
/// The value is queued if its continuations grow.
fn unite(
    manager: &mut LDDManager,
    scratch: &mut Scratch,
    arcs_base: usize,
    next: usize,
    j: u32,
    f: LDDEdge,
    Ghost(ev): Ghost<Seq<SaturationEvent>>,
    Ghost(p): Ghost<int>,
    Ghost(d): Ghost<nat>,
    Ghost(c): Ghost<Set<Seq<u32>>>,
    Ghost(i): Ghost<u32>,
    Ghost(arc_i): Ghost<LDDEdge>,
) -> (r: AllocResult<()>)
    requires
        old(manager).wf(),
        events_known(old(manager).nodes(), ev),
        arcs_base <= old(scratch).arcs@.len(),
        next <= old(scratch).frontier@.len(),
        level_ok(
            old(manager).nodes(),
            ev,
            p,
            d,
            arcs_above(old(scratch).arcs@, arcs_base),
            old(scratch).frontier@.skip(next as int),
            c,
        ),
        finished_but(
            old(manager).nodes(),
            ev,
            p,
            arcs_above(old(scratch).arcs@, arcs_base),
            old(scratch).frontier@.skip(next as int),
            i,
            arc_i,
        ),
        arc_ok(old(manager).nodes(), ev, p, d, f),
        prefixed(j, old(manager).vectors(f)).subset_of(c),
    ensures
        final(manager).wf(),
        old(manager).grows_to(final(manager)),
        final(scratch).fired@ == old(scratch).fired@,
        arcs_base <= final(scratch).arcs@.len(),
        next <= final(scratch).frontier@.len(),
        final(scratch).arcs@.take(arcs_base as int) == old(scratch).arcs@.take(arcs_base as int),
        final(scratch).frontier@.take(next as int) == old(scratch).frontier@.take(next as int),
        match r {
            Ok(_) => {
                let a0 = arcs_above(old(scratch).arcs@, arcs_base);
                let a1 = arcs_above(final(scratch).arcs@, arcs_base);
                let p0 = old(scratch).frontier@.skip(next as int);
                let p1 = final(scratch).frontier@.skip(next as int);
                let v0 = arcs_vectors(old(manager).nodes(), a0);
                let v1 = arcs_vectors(final(manager).nodes(), a1);
                &&& level_ok(final(manager).nodes(), ev, p, d, a1, p1, c)
                &&& finished_but(final(manager).nodes(), ev, p, a1, p1, i, arc_i)
                &&& v1 == v0.union(prefixed(j, old(manager).vectors(f)))
                &&& (a1 == a0 && p1 == p0) || missing(d + 1, v1) < missing(d + 1, v0)
            },
            Err(_) => {
                let v0 = arcs_vectors(
                    old(manager).nodes(),
                    arcs_above(old(scratch).arcs@, arcs_base),
                );
                &&& final(manager).is_full()
                &&& inhabited(tails(v0, j))
                &&& absent(final(manager).nodes(), tails(v0, j).union(old(manager).vectors(f)))
            },
        },
{
    let ghost n0 = manager.nodes();
    let ghost a0 = arcs_above(scratch.arcs@, arcs_base);
    let ghost p0 = scratch.frontier@.skip(next as int);
    let ghost v0 = arcs_vectors(n0, a0);
    let ghost vf = vectors(n0, f);
    match arc_search(&scratch.arcs, arcs_base, j) {
        Ok(pos) => {
            let arc_j = scratch.arcs[pos].1;
            let ghost k = pos - arcs_base;
            let ghost vj = vectors(n0, arc_j);
            proof {
                assert(a0[k] == (j, arc_j));
                assert(arc_ok(n0, ev, p, d, arc_j));
                assert forall|x: Seq<u32>| prefixed(j, vj).contains(x) implies v0.contains(x) by {
                    assert(prefixed(a0[k].0, vectors(n0, a0[k].1)).contains(x));
                }
            }
            // Nothing to add if `j` already continues with exactly `f`.
            if arc_j == f {
                assert(v0 =~= v0.union(prefixed(j, vf)));
                return Ok(());
            }
            // The union of two saturated sets is saturated.
            let unioned = apply_union(manager, arc_j, f);
            proof {
                if unioned is Err {
                    assert forall|w: Seq<u32>| tails(v0, j).contains(w) == vj.contains(w) by {
                        lemma_arcs_tails(n0, a0, k, w);
                    }
                    assert(tails(v0, j) =~= vj);
                    let w = lemma_nonempty(n0, arc_j);
                    assert(vj.contains(w));
                }
            }
            let unioned = unioned?;
            let ghost n1 = manager.nodes();
            let ghost vu = vectors(n1, unioned);
            proof {
                lemma_stable(n0, n1, ev);
                lemma_level_extends(n0, n1, ev, p, d, a0, p0, c);
                lemma_arcs_extends(n0, n1, ev, p, d, a0);
                lemma_finished_but_extends(n0, n1, ev, p, d, a0, p0, i, arc_i);
            }
            if unioned == arc_j {
                proof {
                    assert forall|x: Seq<u32>| prefixed(j, vf).contains(x) implies v0.contains(
                        x,
                    ) by {
                        assert(vj.contains(x.drop_first()));
                        assert(prefixed(j, vj).contains(x));
                    }
                    assert(v0 =~= v0.union(prefixed(j, vf)));
                }
                return Ok(());
            }
            scratch.arcs.set(pos, (j, unioned));
            if !contains_from(&scratch.frontier, next, j) {
                scratch.frontier.push(j);
            }
            proof {
                let a1 = arcs_above(scratch.arcs@, arcs_base);
                let p1 = scratch.frontier@.skip(next as int);
                assert(a1 =~= a0.update(k, (j, unioned)));
                assert(scratch.arcs@.take(arcs_base as int) =~= old(scratch).arcs@.take(
                    arcs_base as int,
                ));
                assert(scratch.frontier@.take(next as int) =~= old(scratch).frontier@.take(
                    next as int,
                ));
                assert(p1 =~= p0 || p1 =~= p0.push(j));
                if p1 == p0.push(j) {
                    assert(p1[p0.len() as int] == j);
                }
                assert(p1.contains(j));
                assert(p1.take(p0.len() as int) =~= p0);
                lemma_arcs_update(n1, a0, k, unioned);
                let v1 = arcs_vectors(n1, a1);
                assert(vu =~= vj.union(vf));
                assert forall|x: Seq<u32>| v1.contains(x) == v0.union(prefixed(j, vf)).contains(
                    x,
                ) by {
                    assert(prefixed(j, vu).contains(x) == (prefixed(j, vj).contains(x) || prefixed(
                        j,
                        vf,
                    ).contains(x)));
                }
                assert(v1 =~= v0.union(prefixed(j, vf)));
                // the union is fine
                lemma_fits_len(n0, arc_j, d);
                lemma_fits_len(n0, f, d);
                lemma_fits(n1, unioned, d);
                let inner = step_rel(n1, ev, p + 1, p + 1);
                assert(inner == step_rel(n0, ev, p + 1, p + 1));
                assert forall|x: Seq<u32>, y: Seq<u32>| vu.contains(x) && #[trigger] inner(
                    x,
                    y,
                ) implies vu.contains(y) by {
                    if vj.contains(x) {
                        assert(vj.contains(y));
                    } else {
                        assert(vf.contains(y));
                    }
                }
                lemma_terminals(n1);
                let w0 = lemma_nonempty(n0, f);
                assert(vf.contains(w0));
                assert(vu.contains(w0));
                assert(arc_ok(n1, ev, p, d, unioned));
                assert forall|x: int| 0 <= x < a1.len() implies arc_ok(
                    n1,
                    ev,
                    p,
                    d,
                    (#[trigger] a1[x]).1,
                ) by {
                    if x != k {
                        assert(a1[x] == a0[x]);
                    }
                }
                assert forall|x: int, y: int| 0 <= x < y < a1.len() implies (#[trigger] a1[x]).0
                    < (#[trigger] a1[y]).0 by {
                    assert(a1[x].0 == a0[x].0);
                    assert(a1[y].0 == a0[y].0);
                }
                assert forall|x: int| 0 <= x < p1.len() implies has_value(a1, #[trigger] p1[x]) by {
                    if x < p0.len() {
                        assert(p1[x] == p0[x]);
                        assert(has_value(a0, p0[x]));
                        let y = choose|y: int| 0 <= y < a0.len() && (#[trigger] a0[y]).0 == p0[x];
                        assert(a1[y].0 == a0[y].0);
                    } else {
                        assert(a1[k].0 == j);
                    }
                }
                assert forall|x: int| 0 <= x < a1.len() && !p1.contains((#[trigger] a1[x]).0) implies (
                if a1[x].0 == i {
                    a1[x].1 == arc_i
                } else {
                    successors_in(n1, ev, p, a1[x].0, a1[x].1, v1)
                }) by {
                    assert(x != k);
                    assert(a1[x] == a0[x]);
                    lemma_not_pending(p0, p1, a0[x].0);
                    if a0[x].0 != i {
                        assert(arc_ok(n1, ev, p, d, a0[x].1));
                        lemma_successors_extends(
                            n1,
                            n1,
                            ev,
                            p,
                            a0[x].0,
                            a0[x].1,
                            arcs_vectors(n1, a0),
                            v1,
                        );
                    }
                }
                // something was added
                assert(exists|w: Seq<u32>| #[trigger] vu.contains(w) && !vj.contains(w)) by {
                    if forall|w: Seq<u32>| #[trigger] vu.contains(w) ==> vj.contains(w) {
                        assert(vu =~= vectors(n1, arc_j));
                        lemma_canonical(n1, unioned, arc_j);
                    }
                }
                let w = choose|w: Seq<u32>| #[trigger] vu.contains(w) && !vj.contains(w);
                lemma_cons(j, w);
                lemma_arcs_tails(n0, a0, k, w);
                assert(prefixed(j, vf).contains(cons(j, w)));
                lemma_fits_len(n1, unioned, d);
                lemma_missing(d + 1, v0, v1, cons(j, w));
            }
            Ok(())
        },
        Err(pos) => {
            let ghost k = pos - arcs_base;
            scratch.arcs.insert(pos, (j, f));
            scratch.frontier.push(j);
            proof {
                let a1 = arcs_above(scratch.arcs@, arcs_base);
                let p1 = scratch.frontier@.skip(next as int);
                assert(a1 =~= a0.insert(k, (j, f)));
                assert(p1 =~= p0.push(j));
                assert(p1[p0.len() as int] == j);
                assert(p1.take(p0.len() as int) =~= p0);
                assert(scratch.arcs@.take(arcs_base as int) =~= old(scratch).arcs@.take(
                    arcs_base as int,
                ));
                assert(scratch.frontier@.take(next as int) =~= old(scratch).frontier@.take(
                    next as int,
                ));
                lemma_arcs_insert(n0, a0, k, j, f);
                let v1 = arcs_vectors(n0, a1);
                assert forall|x: int| 0 <= x < a0.len() implies (x < k ==> (#[trigger] a0[x]).0 < j)
                    && (x >= k ==> a0[x].0 > j) by {
                    assert(a0[x] == old(scratch).arcs@[x + arcs_base]);
                }
                assert forall|x: int| 0 <= x < a1.len() implies arc_ok(
                    n0,
                    ev,
                    p,
                    d,
                    (#[trigger] a1[x]).1,
                ) by {
                    if x < k {
                        assert(a1[x] == a0[x]);
                    } else if x > k {
                        assert(a1[x] == a0[x - 1]);
                    }
                }
                assert forall|x: int, y: int| 0 <= x < y < a1.len() implies (#[trigger] a1[x]).0
                    < (#[trigger] a1[y]).0 by {
                    if x < k {
                        assert(a1[x] == a0[x]);
                    } else if x > k {
                        assert(a1[x] == a0[x - 1]);
                    }
                    if y < k {
                        assert(a1[y] == a0[y]);
                    } else if y > k {
                        assert(a1[y] == a0[y - 1]);
                    }
                }
                assert forall|x: int| 0 <= x < p1.len() implies has_value(a1, #[trigger] p1[x]) by {
                    if x < p0.len() {
                        assert(p1[x] == p0[x]);
                        assert(has_value(a0, p0[x]));
                        let y = choose|y: int| 0 <= y < a0.len() && (#[trigger] a0[y]).0 == p0[x];
                        if y < k {
                            assert(a1[y] == a0[y]);
                        } else {
                            assert(a1[y + 1] == a0[y]);
                        }
                    } else {
                        assert(a1[k].0 == j);
                    }
                }
                assert forall|x: int| 0 <= x < a1.len() && !p1.contains((#[trigger] a1[x]).0) implies (
                if a1[x].0 == i {
                    a1[x].1 == arc_i
                } else {
                    successors_in(n0, ev, p, a1[x].0, a1[x].1, v1)
                }) by {
                    assert(x != k);
                    let y: int = if x < k {
                        x
                    } else {
                        x - 1
                    };
                    assert(a1[x] == a0[y]);
                    lemma_not_pending(p0, p1, a0[y].0);
                    if a0[y].0 != i {
                        assert(arc_ok(n0, ev, p, d, a0[y].1));
                        lemma_successors_extends(n0, n0, ev, p, a0[y].0, a0[y].1, v0, v1);
                    }
                }
                // something was added
                let w = lemma_nonempty(n0, f);
                assert(vf.contains(w));
                lemma_cons(j, w);
                assert(prefixed(j, vf).contains(cons(j, w)));
                if v0.contains(cons(j, w)) {
                    let x: int = choose|x: int|
                        0 <= x < a0.len() && prefixed(
                            (#[trigger] a0[x]).0,
                            vectors(n0, a0[x].1),
                        ).contains(cons(j, w));
                    assert(a0[x].0 == j);
                }
                lemma_fits_len(n0, f, d);
                lemma_missing(d + 1, v0, v1, cons(j, w));
            }
            Ok(())
        },
    }
}

/// Builds the node with the arcs from `arcs_base` on, right to left, and removes them.
fn build_node(
    manager: &mut LDDManager,
    scratch: &mut Scratch,
    arcs_base: usize,
    Ghost(ev): Ghost<Seq<SaturationEvent>>,
    Ghost(p): Ghost<int>,
    Ghost(d): Ghost<nat>,
) -> (r: AllocResult<LDDEdge>)
    requires
        old(manager).wf(),
        events_known(old(manager).nodes(), ev),
        arcs_base <= old(scratch).arcs@.len(),
        sorted(arcs_above(old(scratch).arcs@, arcs_base)),
        arcs_ok(
            old(manager).nodes(),
            ev,
            p,
            d,
            arcs_above(old(scratch).arcs@, arcs_base),
        ),
    ensures
        final(manager).wf(),
        old(manager).grows_to(final(manager)),
        final(scratch).frontier@ == old(scratch).frontier@,
        final(scratch).fired@ == old(scratch).fired@,
        stacked(old(scratch).arcs@.take(arcs_base as int), final(scratch).arcs@),
        match r {
            Ok(e) => {
                &&& final(scratch).arcs@ == old(scratch).arcs@.take(arcs_base as int)
                &&& final(manager).has(e)
                &&& final(manager).vectors(e) == arcs_vectors(
                    old(manager).nodes(),
                    arcs_above(old(scratch).arcs@, arcs_base),
                )
            },
            Err(_) => final(manager).is_full() && absent(
                final(manager).nodes(),
                arcs_vectors(old(manager).nodes(), arcs_above(old(scratch).arcs@, arcs_base)),
            ),
        },
{
    let ghost m0 = *manager;
    let ghost n0 = manager.nodes();
    let ghost s0 = *scratch;
    let ghost goal = arcs_vectors(n0, arcs_above(scratch.arcs@, arcs_base));
    let ghost below = scratch.arcs@.take(arcs_base as int);
    let mut result = manager.get_terminal(LDDTerminal::Empty);
    proof {
        lemma_terminals(n0);
        assert(vectors(n0, result).union(goal) =~= goal);
    }
    while scratch.arcs.len() > arcs_base
        invariant
            manager.wf(),
            m0 == *old(manager),
            s0 == *old(scratch),
            m0.wf(),
            n0 == m0.nodes(),
            m0.grows_to(manager),
            events_known(n0, ev),
            scratch.frontier@ == s0.frontier@,
            scratch.fired@ == s0.fired@,
            arcs_base <= scratch.arcs@.len(),
            arcs_base <= s0.arcs@.len(),
            below == s0.arcs@.take(arcs_base as int),
            scratch.arcs@.take(arcs_base as int) == below,
            sorted(arcs_above(scratch.arcs@, arcs_base)),
            arcs_ok(manager.nodes(), ev, p, d, arcs_above(scratch.arcs@, arcs_base)),
            goal == arcs_vectors(n0, arcs_above(s0.arcs@, arcs_base)),
            manager.has(result),
            fits(manager.nodes(), result, d + 1),
            forall|k: int|
                0 <= k < arcs_above(scratch.arcs@, arcs_base).len() ==> starts_above(
                    vectors(manager.nodes(), result),
                    (#[trigger] arcs_above(scratch.arcs@, arcs_base)[k]).0,
                ),
            vectors(manager.nodes(), result).union(
                arcs_vectors(manager.nodes(), arcs_above(scratch.arcs@, arcs_base)),
            ) == goal,
        decreases scratch.arcs@.len(),
    {
        let ghost n1 = manager.nodes();
        let ghost a1 = arcs_above(scratch.arcs@, arcs_base);
        let ghost t1 = scratch.arcs@;
        let (value, down) = scratch.arcs.pop().unwrap();
        proof {
            let last = a1.len() - 1;
            assert(a1[last] == (value, down));
            assert(arc_ok(n1, ev, p, d, down));
            assert(starts_above(vectors(n1, result), value));
            lemma_above(n1, result, value);
            assert(scratch.arcs@.take(arcs_base as int) =~= t1.take(arcs_base as int));
        }
        let ghost tail = result;
        let made = make_node(manager, value, down, result);
        proof {
            if made is Err {
                let a2 = arcs_above(scratch.arcs@, arcs_base);
                assert(a1 =~= a2.push((value, down)));
                lemma_unmade(n1, value, down, tail);
                lemma_arcs_missing(n1, a2, value, down, vectors(n1, tail));
                assert(vectors(n1, tail).union(arcs_vectors(n1, a1)) =~= arcs_vectors(
                    n1,
                    a1,
                ).union(vectors(n1, tail)));
            }
        }
        result = made?;
        proof {
            let n2 = manager.nodes();
            let a2 = arcs_above(scratch.arcs@, arcs_base);
            lemma_events_extends(n0, n1, ev);
            lemma_stable(n1, n2, ev);
            assert(a1 =~= a2.push((value, down)));
            lemma_arcs_push(n1, a2, value, down);
            assert forall|k: int| 0 <= k < a2.len() implies arc_ok(
                n1,
                ev,
                p,
                d,
                (#[trigger] a2[k]).1,
            ) by {
                assert(a2[k] == a1[k]);
            }
            lemma_arcs_extends(n1, n2, ev, p, d, a2);
            lemma_fits_len(n1, down, d);
            lemma_fits_len(n1, tail, d + 1);
            lemma_fits(n2, result, d + 1);
            assert forall|k: int| 0 <= k < a2.len() implies starts_above(
                vectors(n2, result),
                (#[trigger] a2[k]).0,
            ) by {
                assert(a2[k] == a1[k]);
                assert(a1[k].0 < a1[a1.len() - 1].0);
            }
            assert forall|x: int, y: int| 0 <= x < y < a2.len() implies (#[trigger] a2[x]).0 < (
            #[trigger] a2[y]).0 by {
                assert(a2[x] == a1[x] && a2[y] == a1[y]);
            }
            assert(vectors(n2, result).union(arcs_vectors(n2, a2)) =~= goal);
        }
    }
    proof {
        let n3 = manager.nodes();
        let a3 = arcs_above(scratch.arcs@, arcs_base);
        assert(a3.len() == 0);
        assert(arcs_vectors(n3, a3) =~= Set::<Seq<u32>>::empty());
        assert(vectors(n3, result) =~= goal);
        assert(scratch.arcs@ =~= below);
    }
    Ok(result)
}

/// The result of the relational product if one of the operands is a terminal that decides it:
/// nothing is left of the set, of the relation, or of the positions that take part.
fn relational_product_terminal(
    manager: &LDDManager,
    q: LDDEdge,
    rel: LDDEdge,
    meta: LDDEdge,
) -> (r: Option<LDDEdge>)
    requires
        manager.wf(),
        manager.has(q),
        manager.has(rel),
        manager.has(meta),
    ensures
        r == if q == empty() || rel == empty() {
            Some(empty())
        } else if !is_inner(meta) {
            Some(q)
        } else {
            None
        },
        r matches Some(e) ==> manager.vectors(e) == image(
            manager.vectors(q),
            manager.vectors(rel),
            meta_of(manager.nodes(), meta),
        ),
{
    proof {
        lemma_terminals(manager.nodes());
        lemma_image_empty(
            manager.vectors(q),
            manager.vectors(rel),
            meta_of(manager.nodes(), meta),
        );
        if rel != empty() && !is_inner(meta) {
            let v = lemma_nonempty(manager.nodes(), rel);
            assert(manager.vectors(rel).contains(v));
            lemma_image_done(manager.vectors(q), manager.vectors(rel), v);
        }
    }
    if q.id == 0 || rel.id == 0 {
        return Some(manager.get_terminal(LDDTerminal::Empty));
    }
    match manager.get_node(meta) {
        Node::Inner(_) => None,
        Node::Terminal(_) => Some(q),
    }
}

/// Walks the spine of `rel` looking for the entry equal to `i`, returning its continuations.
fn spine_lookup(manager: &LDDManager, rel: LDDEdge, i: u32) -> (r: Option<LDDEdge>)
    requires
        manager.wf(),
        manager.has(rel),
    ensures
        match r {
            Some(down) => manager.has(down) && down != empty() && manager.vectors(down) == tails(
                manager.vectors(rel),
                i,
            ),
            None => tails(manager.vectors(rel), i) == Set::<Seq<u32>>::empty(),
        },
{
    let mut cur = rel;
    let ghost nodes = manager.nodes();
    loop
        invariant
            manager.wf(),
            nodes == manager.nodes(),
            manager.has(cur),
            tails(vectors(nodes, cur), i) == tails(vectors(nodes, rel), i),
        decreases cur.id,
    {
        match manager.get_node(cur) {
            Node::Inner(n) => {
                proof {
                    lemma_inner(nodes, cur);
                    assert forall|w: Seq<u32>| tails(vectors(nodes, cur), i).contains(w) == (if n.value
                        == i {
                        vectors(nodes, n.down).contains(w)
                    } else if n.value > i {
                        false
                    } else {
                        tails(vectors(nodes, n.right), i).contains(w)
                    }) by {
                        lemma_cons(i, w);
                    }
                }
                if n.value == i {
                    assert(vectors(nodes, n.down) =~= tails(vectors(nodes, rel), i));
                    return Some(n.down);
                }
                if n.value > i {
                    assert(tails(vectors(nodes, rel), i) =~= Set::<Seq<u32>>::empty());
                    return None;
                }
                assert(tails(vectors(nodes, n.right), i) =~= tails(vectors(nodes, rel), i));
                cur = n.right;
            },
            Node::Terminal(_) => {
                proof {
                    lemma_terminals(nodes);
                    assert forall|w: Seq<u32>| !tails(vectors(nodes, cur), i).contains(w) by {
                        lemma_cons(i, w);
                        assert(vectors(nodes, cur).contains(cons(i, w)) ==> cons(i, w).len() == 0);
                    }
                    assert(tails(vectors(nodes, rel), i) =~= Set::<Seq<u32>>::empty());
                }
                return None;
            },
        }
    }
}

impl<'a> Saturation<'a> {
    /// The manager is consistent and knows the events. Those that start at position `p` or below can
    /// be fired.
    spec fn ready(&self, manager: &LDDManager, p: int) -> bool {
        &&& manager.wf()
        &&& events_ok(manager.nodes(), self.events@, p)
        &&& manager.epochs().contains_key(self.epoch)
        &&& manager.epochs()[self.epoch] == self.events@
    }

    /// The key of firing the part `rel`/`meta` of an event on `q`, which sits at position `p`.
    spec fn fire_key(&self, q: LDDEdge, rel: LDDEdge, meta: LDDEdge, p: u32) -> LDDKey {
        LDDKey { op: LDDOp::SatRecFire, a: q, b: rel, c: meta, epoch: self.epoch, pos: p }
    }

    /// What a recursive call achieves: the set of the vectors that are reachable from `s`. It only
    /// fails if something that has to be built for the task has no edge.
    spec fn achieves(
        &self,
        before: &LDDManager,
        after: &LDDManager,
        r: AllocResult<LDDEdge>,
        t: int,
        p: int,
        s: Set<Seq<u32>>,
        task: Task,
    ) -> bool {
        &&& after.wf()
        &&& before.grows_to(after)
        &&& match r {
            Ok(e) => after.has(e) && after.vectors(e) == reachable(
                before.nodes(),
                self.events@,
                t,
                p,
                s,
            ),
            Err(_) => self.stuck(before, after, task),
        }
    }

    /// There is no room for another node, and one of the sets that have to be built for the task has
    /// no edge.
    spec fn stuck(&self, before: &LDDManager, after: &LDDManager, task: Task) -> bool {
        &&& after.is_full()
        &&& lacks(after.nodes(), effects(before.nodes(), self.events@), task)
    }

    /// A task that leads to no vector succeeds with the empty set.
    proof fn lemma_idle(
        &self,
        before: LDDManager,
        after: LDDManager,
        r: AllocResult<LDDEdge>,
        t: int,
        p: int,
        s: Set<Seq<u32>>,
        task: Task,
    )
        requires
            self.achieves(&before, &after, r, t, p, s, task),
            is_idle(task),
            s == Set::<Seq<u32>>::empty(),
        ensures
            r == Ok::<LDDEdge, OutOfMemory>(empty()),
    {
        let fx = effects(before.nodes(), self.events@);
        lemma_demand_idle(after.nodes(), fx, task);
        lemma_reachable_empty(before.nodes(), self.events@, t, p);
        lemma_terminals(after.nodes());
        match r {
            Ok(e) => {
                lemma_canonical(after.nodes(), e, empty());
            },
            Err(_) => {},
        }
    }

    /// Builds the set of the vectors that start with a value of `rel` and continue with what the
    /// rest of the transition makes of a vector of `set`. The set built belongs to position `l`.
    fn write_values(
        &self,
        manager: &mut LDDManager,
        scratch: &mut Scratch,
        set: LDDEdge,
        rel: LDDEdge,
        meta: LDDEdge,
        l: u32,
        Ghost(h): Ghost<nat>,
    ) -> (r: AllocResult<LDDEdge>)
        requires
            self.ready(old(manager), l + 1),
            old(manager).has(rel),
            old(manager).has(meta),
            h >= 1,
            fits(old(manager).nodes(), set, (h - 1) as nat),
            l + h <= u32::MAX,
            meta_ok(meta_of(old(manager).nodes(), meta)),
            saturated(
                old(manager).nodes(),
                self.events@,
                l + 1,
                l + 1,
                old(manager).vectors(set),
            ),
        ensures
            self.achieves(
                old(manager),
                final(manager),
                r,
                l + 1,
                l as int,
                written(
                    old(manager).vectors(set),
                    old(manager).vectors(rel),
                    meta_of(old(manager).nodes(), meta),
                ),
                Task::Write {
                    p: l as int,
                    a: old(manager).vectors(set),
                    rel: old(manager).vectors(rel),
                    meta: meta_of(old(manager).nodes(), meta),
                },
            ),
            old(scratch).same(final(scratch)),
        decreases h, 2int, set.id + rel.id + meta.id, 3int,
    {
        let ghost n0 = manager.nodes();
        let ghost a = vectors(n0, set);
        let ghost m = meta_of(n0, meta);
        let ghost fx = effects(n0, self.events@);
        let ghost task = Task::Write { p: l as int, a, rel: vectors(n0, rel), meta: m };
        let n = match manager.get_node(rel) {
            Node::Inner(n) => n,
            Node::Terminal(_) => {
                proof {
                    lemma_terminals(n0);
                    assert(written(a, vectors(n0, rel), m) =~= Set::<Seq<u32>>::empty());
                    lemma_reachable_empty(n0, self.events@, l + 1, l as int);
                }
                return Ok(manager.get_terminal(LDDTerminal::Empty));
            },
        };
        proof {
            lemma_inner(n0, rel);
            lemma_fits_len(n0, set, (h - 1) as nat);
            lemma_image_len(a, vectors(n0, n.down), m, (h - 1) as nat);
            lemma_image_len(a, vectors(n0, n.right), m, (h - 1) as nat);
            lemma_written_split(a, n.value, vectors(n0, n.down), vectors(n0, n.right), m);
            let w = lemma_nonempty(n0, n.down);
            assert(vectors(n0, n.down).contains(w));
            lemma_demand_written(
                fx,
                l as int,
                a,
                n.value,
                vectors(n0, n.down),
                vectors(n0, n.right),
                m,
            );
        }
        let down = self.recurse(
            Position::Next,
            manager,
            scratch,
            set,
            n.down,
            meta,
            l,
            Ghost(h),
        );
        proof {
            if down is Err {
                let part = Task::Fire { p: l + 1, a, rel: vectors(n0, n.down), meta: m };
                lemma_lacks(manager.nodes(), fx, task, part);
            }
        }
        let down = down?;
        let ghost n1 = manager.nodes();
        proof {
            lemma_stable(n0, n1, self.events@);
        }
        let right = self.write_values(manager, scratch, set, n.right, meta, l, Ghost(h));
        proof {
            if right is Err {
                let part = Task::Write { p: l as int, a, rel: vectors(n0, n.right), meta: m };
                lemma_lacks(manager.nodes(), fx, task, part);
            }
        }
        let right = right?;
        let ghost n2 = manager.nodes();
        proof {
            lemma_stable(n1, n2, self.events@);
            lemma_node_parts(
                n0,
                n2,
                self.events@,
                l as int,
                (h - 1) as nat,
                n.value,
                down,
                right,
                image(a, vectors(n0, n.down), m),
                written(a, vectors(n0, n.right), m),
            );
        }
        let result = make_node(manager, n.value, down, right);
        proof {
            if result is Err {
                lemma_unmade(n2, n.value, down, right);
                lemma_lacks_built(
                    n2,
                    fx,
                    task,
                    fx.reach(l + 1, l as int, written(a, vectors(n0, rel), m)),
                );
            }
        }
        result
    }

    /// One step of the relational product, for operands that are not decided by
    /// [`relational_product_terminal`]. The set built belongs to position `l`. Every node that is
    /// built for the next position is saturated.
    fn relational_product_step(
        &self,
        manager: &mut LDDManager,
        scratch: &mut Scratch,
        set: LDDEdge,
        rel: LDDEdge,
        meta: LDDEdge,
        l: u32,
        Ghost(h): Ghost<nat>,
    ) -> (r: AllocResult<LDDEdge>)
        requires
            self.ready(old(manager), l + 1),
            old(manager).has(rel),
            old(manager).has(meta),
            set != empty(),
            rel != empty(),
            is_inner(meta),
            fits(old(manager).nodes(), set, h),
            l + h <= u32::MAX,
            meta_ok(meta_of(old(manager).nodes(), meta)),
            saturated(
                old(manager).nodes(),
                self.events@,
                l + 1,
                l as int,
                old(manager).vectors(set),
            ),
        ensures
            self.achieves(
                old(manager),
                final(manager),
                r,
                l + 1,
                l as int,
                image(
                    old(manager).vectors(set),
                    old(manager).vectors(rel),
                    meta_of(old(manager).nodes(), meta),
                ),
                Task::Step {
                    p: l as int,
                    a: old(manager).vectors(set),
                    rel: old(manager).vectors(rel),
                    meta: meta_of(old(manager).nodes(), meta),
                },
            ),
            old(scratch).same(final(scratch)),
        decreases h, 2int, set.id + rel.id + meta.id, 0int,
    {
        let ghost n0 = manager.nodes();
        let ghost ev = self.events@;
        let ghost a = vectors(n0, set);
        let ghost b = vectors(n0, rel);
        let ghost m = meta_of(n0, meta);
        let ghost fx = effects(n0, ev);
        let ghost task = Task::Step { p: l as int, a, rel: b, meta: m };
        let ghost goal = fx.reach(l + 1, l as int, image(a, b, m));
        proof {
            lemma_terminals(n0);
            lemma_meta_inner(n0, meta);
            lemma_inner(n0, meta);
            lemma_reachable_empty(n0, ev, l + 1, l as int);
        }
        let meta_node = match manager.get_node(meta) {
            Node::Inner(n) => n,
            Node::Terminal(_) => vstd::pervasive::unreached(),
        };
        let n = match manager.get_node(set) {
            Node::Inner(n) => n,
            Node::Terminal(_) => {
                // There is no component left to touch.
                proof {
                    lemma_image_short(a, b, m);
                }
                return Ok(manager.get_terminal(LDDTerminal::Empty));
            },
        };
        proof {
            lemma_inner(n0, set);
            assert(starts_above(vectors(n0, n.right), n.value));
            lemma_saturated_parts(
                n0,
                ev,
                l as int,
                n.value,
                vectors(n0, n.down),
                vectors(n0, n.right),
            );
            lemma_fits_len(n0, n.down, (h - 1) as nat);
            lemma_fits_len(n0, n.right, h);
            lemma_fits_len(n0, set, h);
            let w = lemma_nonempty(n0, n.down);
            assert(vectors(n0, n.down).contains(w));
            lemma_demand_step(
                fx,
                l as int,
                n.value,
                vectors(n0, n.down),
                vectors(n0, n.right),
                b,
                m,
            );
        }
        let ghost vd = vectors(n0, n.down);
        let ghost vr = vectors(n0, n.right);
        if meta_node.value == NOT_IN_RELATION {
            let down = self.recurse(
                Position::Next,
                manager,
                scratch,
                n.down,
                rel,
                meta_node.down,
                l,
                Ghost(h),
            );
            proof {
                if down is Err {
                    let part = Task::Fire { p: l + 1, a: vd, rel: b, meta: m.drop_first() };
                    lemma_lacks(manager.nodes(), fx, task, part);
                }
            }
            let down = down?;
            let ghost n1 = manager.nodes();
            proof {
                lemma_stable(n0, n1, ev);
            }
            let right = self.recurse(
                Position::Same,
                manager,
                scratch,
                n.right,
                rel,
                meta,
                l,
                Ghost(h),
            );
            proof {
                if right is Err {
                    let part = Task::Step { p: l as int, a: vr, rel: b, meta: m };
                    lemma_lacks(manager.nodes(), fx, task, part);
                }
            }
            let right = right?;
            let ghost n2 = manager.nodes();
            proof {
                lemma_stable(n1, n2, ev);
                lemma_image_skip(n.value, vectors(n0, n.down), vectors(n0, n.right), b, m);
                let s = image(vectors(n0, n.down), b, m.drop_first());
                let t = image(vectors(n0, n.right), b, m);
                lemma_image_len(vectors(n0, n.down), b, m.drop_first(), (h - 1) as nat);
                lemma_image_len(vectors(n0, n.right), b, m, h);
                assert(starts_above(t, n.value));
                lemma_node_parts(
                    n0,
                    n2,
                    ev,
                    l as int,
                    (h - 1) as nat,
                    n.value,
                    down,
                    right,
                    s,
                    t,
                );
            }
            let result = make_node(manager, n.value, down, right);
            proof {
                if result is Err {
                    lemma_unmade(manager.nodes(), n.value, down, right);
                    lemma_lacks_built(manager.nodes(), fx, task, goal);
                }
            }
            return result;
        }
        let rel_node = match manager.get_node(rel) {
            Node::Inner(n) => n,
            Node::Terminal(_) => {
                // There is no component left to compare with.
                proof {
                    lemma_image_short(a, b, m);
                }
                return Ok(manager.get_terminal(LDDTerminal::Empty));
            },
        };
        proof {
            lemma_inner(n0, rel);
            assert(starts_above(vectors(n0, rel_node.right), rel_node.value));
        }
        if meta_node.value == WRITE_ONLY {
            let here = self.write_values(
                manager,
                scratch,
                n.down,
                rel,
                meta_node.down,
                l,
                Ghost(h),
            );
            proof {
                if here is Err {
                    let part = Task::Write { p: l as int, a: vd, rel: b, meta: m.drop_first() };
                    lemma_lacks(manager.nodes(), fx, task, part);
                }
            }
            let here = here?;
            let ghost n1 = manager.nodes();
            proof {
                lemma_stable(n0, n1, ev);
            }
            let right = self.recurse(
                Position::Same,
                manager,
                scratch,
                n.right,
                rel,
                meta,
                l,
                Ghost(h),
            );
            proof {
                if right is Err {
                    let part = Task::Step { p: l as int, a: vr, rel: b, meta: m };
                    lemma_lacks(manager.nodes(), fx, task, part);
                }
            }
            let right = right?;
            let ghost n2 = manager.nodes();
            proof {
                lemma_stable(n1, n2, ev);
                lemma_image_write(n.value, vectors(n0, n.down), vectors(n0, n.right), b, m);
                lemma_image_len(vectors(n0, n.down), b, m.drop_first(), (h - 1) as nat);
                lemma_image_len(vectors(n0, n.right), b, m, h);
                lemma_union_parts(
                    n0,
                    n2,
                    ev,
                    l as int,
                    h,
                    here,
                    right,
                    written(vectors(n0, n.down), b, m.drop_first()),
                    image(vectors(n0, n.right), b, m),
                );
            }
            let result = apply_union(manager, here, right);
            proof {
                if result is Err {
                    lemma_lacks_built(manager.nodes(), fx, task, goal);
                }
            }
            return result;
        }
        // The position is read.
        proof {
            lemma_image_read(
                n.value,
                vectors(n0, n.down),
                vectors(n0, n.right),
                rel_node.value,
                vectors(n0, rel_node.down),
                vectors(n0, rel_node.right),
                m,
            );
            let w = lemma_nonempty(n0, rel_node.down);
            assert(vectors(n0, rel_node.down).contains(w));
            lemma_demand_read(
                fx,
                l as int,
                n.value,
                vd,
                vr,
                rel_node.value,
                vectors(n0, rel_node.down),
                vectors(n0, rel_node.right),
                m,
            );
        }
        let ghost rd = vectors(n0, rel_node.down);
        let ghost rr = vectors(n0, rel_node.right);
        if n.value < rel_node.value {
            let result = self.recurse(
                Position::Same,
                manager,
                scratch,
                n.right,
                rel,
                meta,
                l,
                Ghost(h),
            );
            proof {
                if result is Err {
                    let part = Task::Step { p: l as int, a: vr, rel: b, meta: m };
                    lemma_lacks(manager.nodes(), fx, task, part);
                }
            }
            return result;
        }
        if n.value > rel_node.value {
            let result = self.recurse(
                Position::Same,
                manager,
                scratch,
                set,
                rel_node.right,
                meta,
                l,
                Ghost(h),
            );
            proof {
                if result is Err {
                    let part = Task::Step { p: l as int, a, rel: rr, meta: m };
                    lemma_lacks(manager.nodes(), fx, task, part);
                }
            }
            return result;
        }
        if meta_node.value == READ_ONLY {
            let down = self.recurse(
                Position::Next,
                manager,
                scratch,
                n.down,
                rel_node.down,
                meta_node.down,
                l,
                Ghost(h),
            );
            proof {
                if down is Err {
                    let part = Task::Fire { p: l + 1, a: vd, rel: rd, meta: m.drop_first() };
                    lemma_lacks(manager.nodes(), fx, task, part);
                }
            }
            let down = down?;
            let ghost n1 = manager.nodes();
            proof {
                lemma_stable(n0, n1, ev);
            }
            let right = self.recurse(
                Position::Same,
                manager,
                scratch,
                n.right,
                rel_node.right,
                meta,
                l,
                Ghost(h),
            );
            proof {
                if right is Err {
                    let part = Task::Step { p: l as int, a: vr, rel: rr, meta: m };
                    lemma_lacks(manager.nodes(), fx, task, part);
                }
            }
            let right = right?;
            let ghost n2 = manager.nodes();
            proof {
                lemma_stable(n1, n2, ev);
                let s = image(vectors(n0, n.down), vectors(n0, rel_node.down), m.drop_first());
                let t = image(vectors(n0, n.right), vectors(n0, rel_node.right), m);
                lemma_image_len(
                    vectors(n0, n.down),
                    vectors(n0, rel_node.down),
                    m.drop_first(),
                    (h - 1) as nat,
                );
                lemma_image_len(vectors(n0, n.right), vectors(n0, rel_node.right), m, h);
                assert(starts_above(t, n.value));
                lemma_node_parts(
                    n0,
                    n2,
                    ev,
                    l as int,
                    (h - 1) as nat,
                    n.value,
                    down,
                    right,
                    s,
                    t,
                );
            }
            let result = make_node(manager, n.value, down, right);
            proof {
                if result is Err {
                    lemma_unmade(manager.nodes(), n.value, down, right);
                    lemma_lacks_built(manager.nodes(), fx, task, goal);
                }
            }
            return result;
        }
        // The position is read and written.
        proof {
            lemma_inner(n0, meta_node.down);
            lemma_meta_inner(n0, meta_node.down);
        }
        let write_node = match manager.get_node(meta_node.down) {
            Node::Inner(n) => n,
            Node::Terminal(_) => vstd::pervasive::unreached(),
        };
        let here = self.write_values(
            manager,
            scratch,
            n.down,
            rel_node.down,
            write_node.down,
            l,
            Ghost(h),
        );
        proof {
            if here is Err {
                let m2 = m.drop_first().drop_first();
                let part = Task::Write { p: l as int, a: vd, rel: rd, meta: m2 };
                lemma_lacks(manager.nodes(), fx, task, part);
            }
        }
        let here = here?;
        let ghost n1 = manager.nodes();
        proof {
            lemma_stable(n0, n1, ev);
        }
        let right = self.recurse(
            Position::Same,
            manager,
            scratch,
            n.right,
            rel_node.right,
            meta,
            l,
            Ghost(h),
        );
        proof {
            if right is Err {
                let part = Task::Step { p: l as int, a: vr, rel: rr, meta: m };
                lemma_lacks(manager.nodes(), fx, task, part);
            }
        }
        let right = right?;
        let ghost n2 = manager.nodes();
        proof {
            lemma_stable(n1, n2, ev);
            let m2 = m.drop_first().drop_first();
            lemma_image_len(vectors(n0, n.down), vectors(n0, rel_node.down), m2, (h - 1) as nat);
            lemma_image_len(vectors(n0, n.right), vectors(n0, rel_node.right), m, h);
            lemma_union_parts(
                n0,
                n2,
                ev,
                l as int,
                h,
                here,
                right,
                written(vectors(n0, n.down), vectors(n0, rel_node.down), m2),
                image(vectors(n0, n.right), vectors(n0, rel_node.right), m),
            );
        }
        let result = apply_union(manager, here, right);
        proof {
            if result is Err {
                lemma_lacks_built(manager.nodes(), fx, task, goal);
            }
        }
        result
    }

    /// Continues the relational product at the next position or further to the right. The node
    /// being built belongs to position `l`.
    fn recurse(
        &self,
        position: Position,
        manager: &mut LDDManager,
        scratch: &mut Scratch,
        set: LDDEdge,
        rel: LDDEdge,
        meta: LDDEdge,
        l: u32,
        Ghost(h): Ghost<nat>,
    ) -> (r: AllocResult<LDDEdge>)
        requires
            self.ready(old(manager), l + 1),
            old(manager).has(rel),
            old(manager).has(meta),
            h >= 1,
            l + h <= u32::MAX,
            meta_ok(meta_of(old(manager).nodes(), meta)),
            match position {
                Position::Next => fits(old(manager).nodes(), set, (h - 1) as nat) && saturated(
                    old(manager).nodes(),
                    self.events@,
                    l + 1,
                    l + 1,
                    old(manager).vectors(set),
                ),
                Position::Same => fits(old(manager).nodes(), set, h) && saturated(
                    old(manager).nodes(),
                    self.events@,
                    l + 1,
                    l as int,
                    old(manager).vectors(set),
                ),
            },
        ensures
            self.achieves(
                old(manager),
                final(manager),
                r,
                l + 1,
                match position {
                    Position::Next => l + 1,
                    Position::Same => l as int,
                },
                image(
                    old(manager).vectors(set),
                    old(manager).vectors(rel),
                    meta_of(old(manager).nodes(), meta),
                ),
                match position {
                    Position::Next => Task::Fire {
                        p: l + 1,
                        a: old(manager).vectors(set),
                        rel: old(manager).vectors(rel),
                        meta: meta_of(old(manager).nodes(), meta),
                    },
                    Position::Same => Task::Step {
                        p: l as int,
                        a: old(manager).vectors(set),
                        rel: old(manager).vectors(rel),
                        meta: meta_of(old(manager).nodes(), meta),
                    },
                },
            ),
            old(scratch).same(final(scratch)),
            image(
                old(manager).vectors(set),
                old(manager).vectors(rel),
                meta_of(old(manager).nodes(), meta),
            ) == Set::<Seq<u32>>::empty() ==> r == Ok::<LDDEdge, OutOfMemory>(empty()),
        decreases h, 2int, set.id + rel.id + meta.id, 2int,
    {
        match position {
            Position::Next => self.sat_rec_fire(
                manager,
                scratch,
                set,
                rel,
                meta,
                l + 1,
                Ghost((h - 1) as nat),
            ),
            Position::Same => self.rec_fire(manager, scratch, set, rel, meta, l, Ghost(h)),
        }
    }

    /// Fires the part `rel`/`meta_l` of an event on `q`, where the result belongs to position `l`.
    /// Nothing is saturated at this position, since the node that is being built is not finished
    /// yet; its creator saturates it.
    fn rec_fire(
        &self,
        manager: &mut LDDManager,
        scratch: &mut Scratch,
        q: LDDEdge,
        rel: LDDEdge,
        meta_l: LDDEdge,
        l: u32,
        Ghost(h): Ghost<nat>,
    ) -> (r: AllocResult<LDDEdge>)
        requires
            self.ready(old(manager), l + 1),
            old(manager).has(rel),
            old(manager).has(meta_l),
            fits(old(manager).nodes(), q, h),
            l + h <= u32::MAX,
            meta_ok(meta_of(old(manager).nodes(), meta_l)),
            saturated(
                old(manager).nodes(),
                self.events@,
                l + 1,
                l as int,
                old(manager).vectors(q),
            ),
        ensures
            self.achieves(
                old(manager),
                final(manager),
                r,
                l + 1,
                l as int,
                image(
                    old(manager).vectors(q),
                    old(manager).vectors(rel),
                    meta_of(old(manager).nodes(), meta_l),
                ),
                Task::Step {
                    p: l as int,
                    a: old(manager).vectors(q),
                    rel: old(manager).vectors(rel),
                    meta: meta_of(old(manager).nodes(), meta_l),
                },
            ),
            old(scratch).same(final(scratch)),
            q == empty() || rel == empty() ==> r == Ok::<LDDEdge, OutOfMemory>(empty()),
            q != empty() && rel != empty() && !is_inner(meta_l) ==> r == Ok::<
                LDDEdge,
                OutOfMemory,
            >(q),
            image(
                old(manager).vectors(q),
                old(manager).vectors(rel),
                meta_of(old(manager).nodes(), meta_l),
            ) == Set::<Seq<u32>>::empty() ==> r == Ok::<LDDEdge, OutOfMemory>(empty()),
        decreases h, 2int, q.id + rel.id + meta_l.id, 1int,
    {
        let ghost m0 = *manager;
        let ghost a = manager.vectors(q);
        let ghost b = manager.vectors(rel);
        let ghost m = meta_of(manager.nodes(), meta_l);
        let result = match relational_product_terminal(manager, q, rel, meta_l) {
            Some(result) => {
                proof {
                    lemma_terminals(manager.nodes());
                    lemma_reachable_empty(manager.nodes(), self.events@, l + 1, l as int);
                    lemma_closure_fixed(
                        step_rel(manager.nodes(), self.events@, l + 1, l as int),
                        manager.vectors(q),
                    );
                }
                Ok(result)
            },
            None => self.relational_product_step(manager, scratch, q, rel, meta_l, l, Ghost(h)),
        };
        proof {
            let s = image(a, b, m);
            if s == Set::<Seq<u32>>::empty() {
                let task = Task::Step { p: l as int, a, rel: b, meta: m };
                self.lemma_idle(m0, *manager, result, l + 1, l as int, s, task);
            }
        }
        result
    }

    /// Fires the part `rel`/`meta_l` of an event on `q`, where the result belongs to position `l`,
    /// which lies below the event's `top`. The result is saturated at `l` before it is returned, so
    /// it is safe to use as anyone's child.
    fn sat_rec_fire(
        &self,
        manager: &mut LDDManager,
        scratch: &mut Scratch,
        q: LDDEdge,
        rel: LDDEdge,
        meta_l: LDDEdge,
        l: u32,
        Ghost(h): Ghost<nat>,
    ) -> (r: AllocResult<LDDEdge>)
        requires
            self.ready(old(manager), l as int),
            old(manager).has(rel),
            old(manager).has(meta_l),
            fits(old(manager).nodes(), q, h),
            l + h <= u32::MAX,
            meta_ok(meta_of(old(manager).nodes(), meta_l)),
            saturated(
                old(manager).nodes(),
                self.events@,
                l as int,
                l as int,
                old(manager).vectors(q),
            ),
        ensures
            self.achieves(
                old(manager),
                final(manager),
                r,
                l as int,
                l as int,
                image(
                    old(manager).vectors(q),
                    old(manager).vectors(rel),
                    meta_of(old(manager).nodes(), meta_l),
                ),
                Task::Fire {
                    p: l as int,
                    a: old(manager).vectors(q),
                    rel: old(manager).vectors(rel),
                    meta: meta_of(old(manager).nodes(), meta_l),
                },
            ),
            old(scratch).same(final(scratch)),
            q == empty() || rel == empty() ==> r == Ok::<LDDEdge, OutOfMemory>(empty()),
            q != empty() && rel != empty() && !is_inner(meta_l) ==> r == Ok::<
                LDDEdge,
                OutOfMemory,
            >(q),
            image(
                old(manager).vectors(q),
                old(manager).vectors(rel),
                meta_of(old(manager).nodes(), meta_l),
            ) == Set::<Seq<u32>>::empty() ==> r == Ok::<LDDEdge, OutOfMemory>(empty()),
            q != empty() && rel != empty() && is_inner(meta_l) ==> memoised(
                *old(manager),
                *final(manager),
                self.fire_key(q, rel, meta_l, l),
                r,
            ),
        decreases h, 3int, 0int, 0int,
    {
        let ghost n0 = manager.nodes();
        let ghost ev = self.events@;
        let ghost m0 = *manager;
        let ghost a = vectors(n0, q);
        let ghost b = vectors(n0, rel);
        let ghost m = meta_of(n0, meta_l);
        let ghost s = image(a, b, m);
        let ghost fx = effects(n0, ev);
        let ghost task = Task::Fire { p: l as int, a, rel: b, meta: m };
        match relational_product_terminal(manager, q, rel, meta_l) {
            Some(result) => {
                proof {
                    lemma_terminals(n0);
                    lemma_reachable_empty(n0, ev, l as int, l as int);
                    lemma_closure_fixed(step_rel(n0, ev, l as int, l as int), vectors(n0, q));
                    if s == Set::<Seq<u32>>::empty() {
                        lemma_canonical(n0, result, empty());
                    }
                }
                return Ok(result);
            },
            None => {},
        }

        let key = LDDKey {
            op: LDDOp::SatRecFire,
            a: q,
            b: rel,
            c: meta_l,
            epoch: self.epoch,
            pos: l,
        };
        match manager.cache_get(key) {
            Some(r) => {
                proof {
                    if s == Set::<Seq<u32>>::empty() {
                        lemma_terminals(n0);
                        lemma_reachable_empty(n0, ev, l as int, l as int);
                        lemma_canonical(n0, r, empty());
                    }
                }
                return Ok(r);
            },
            None => {},
        }

        proof {
            lemma_step_weaken(n0, ev, l as int);
            assert(saturated(n0, ev, l + 1, l as int, vectors(n0, q)));
            let x = lemma_nonempty(n0, q);
            assert(a.contains(x));
            let y = lemma_nonempty(n0, rel);
            assert(b.contains(y));
            lemma_meta_inner(n0, meta_l);
            lemma_demand_fire(fx, l as int, a, b, m);
        }
        let raw = self.relational_product_step(manager, scratch, q, rel, meta_l, l, Ghost(h));
        proof {
            if raw is Err {
                let part = Task::Step { p: l as int, a, rel: b, meta: m };
                lemma_lacks(manager.nodes(), fx, task, part);
                if s == Set::<Seq<u32>>::empty() {
                    lemma_demand_idle(manager.nodes(), fx, task);
                }
            }
        }
        let raw = raw?;
        let ghost n1 = manager.nodes();
        proof {
            lemma_stable(n0, n1, ev);
            lemma_fits_len(n0, q, h);
            lemma_image_len(vectors(n0, q), vectors(n0, rel), meta_of(n0, meta_l), h);
            lemma_reachable_len(n0, ev, l + 1, l as int, s, h);
            lemma_fits(n1, raw, h);
        }
        let result = self.saturate_rec(manager, scratch, raw, l, Ghost(h));
        proof {
            if result is Err {
                let part = Task::Saturate {
                    p: l as int,
                    s: fx.reach(l + 1, l as int, s),
                };
                lemma_lacks(manager.nodes(), fx, task, part);
                if s == Set::<Seq<u32>>::empty() {
                    lemma_demand_idle(manager.nodes(), fx, task);
                }
            }
        }
        let result = result?;
        proof {
            lemma_stable(n1, manager.nodes(), ev);
            lemma_closure_absorbs(
                step_rel(n0, ev, l + 1, l as int),
                step_rel(n0, ev, l as int, l as int),
                s,
            );
            assert(entry_ok(manager.nodes(), manager.epochs(), key, result));
        }
        manager.cache_add(key, result);
        proof {
            if s == Set::<Seq<u32>>::empty() {
                self.lemma_idle(m0, *manager, Ok(result), l as int, l as int, s, task);
            }
        }
        Ok(result)
    }

    /// Fires the written values of a transition: for every value of `rel`, the part of the event
    /// below is fired on `arc_i`, and the pairs of the values and the results are pushed onto
    /// `scratch.fired`. The values belong to position `p`.
    fn fire_values(
        &self,
        manager: &mut LDDManager,
        scratch: &mut Scratch,
        arc_i: LDDEdge,
        rel: LDDEdge,
        meta: LDDEdge,
        p: u32,
        Ghost(h): Ghost<nat>,
    ) -> (r: AllocResult<()>)
        requires
            self.ready(old(manager), p + 1),
            old(manager).has(rel),
            old(manager).has(meta),
            h >= 1,
            p + h <= u32::MAX,
            meta_ok(meta_of(old(manager).nodes(), meta)),
            arc_ok(old(manager).nodes(), self.events@, p as int, (h - 1) as nat, arc_i),
        ensures
            self.fires_to(
                old(manager),
                final(manager),
                old(scratch),
                final(scratch),
                r,
                p as int,
                h,
                written(
                    old(manager).vectors(arc_i),
                    old(manager).vectors(rel),
                    meta_of(old(manager).nodes(), meta),
                ),
                Task::Values {
                    p: p as int,
                    a: old(manager).vectors(arc_i),
                    rel: old(manager).vectors(rel),
                    meta: meta_of(old(manager).nodes(), meta),
                },
            ),
        decreases h, 1int, 0int, 0int,
    {
        let ghost n0 = manager.nodes();
        let ghost m0 = *manager;
        let ghost s0 = *scratch;
        let ghost ev = self.events@;
        let ghost a = vectors(n0, arc_i);
        let ghost m = meta_of(n0, meta);
        let ghost d = (h - 1) as nat;
        let ghost goal = reachable(n0, ev, p + 1, p as int, written(a, vectors(n0, rel), m));
        let ghost base = scratch.fired@.len() as int;
        let ghost fx = effects(n0, ev);
        let ghost task = Task::Values { p: p as int, a, rel: vectors(n0, rel), meta: m };
        let mut cur = rel;
        proof {
            assert(scratch.fired@.skip(base) =~= Seq::<(u32, LDDEdge)>::empty());
            assert(arcs_vectors(n0, scratch.fired@.skip(base)) =~= Set::<Seq<u32>>::empty());
            assert(scratch.fired@.take(base) =~= s0.fired@);
        }
        loop
            invariant
                self.ready(manager, p + 1),
                m0 == *old(manager),
                s0 == *old(scratch),
                self.ready(&m0, p + 1),
                n0 == m0.nodes(),
                m0.grows_to(manager),
                ev == self.events@,
                h >= 1,
                d == h - 1,
                p + h <= u32::MAX,
                valid(n0, rel),
                valid(n0, meta),
                m == meta_of(n0, meta),
                meta_ok(m),
                a == vectors(n0, arc_i),
                arc_ok(n0, ev, p as int, d, arc_i),
                valid(n0, cur),
                base == s0.fired@.len(),
                scratch.arcs@ == s0.arcs@,
                scratch.frontier@ == s0.frontier@,
                stacked(s0.fired@, scratch.fired@),
                sorted(scratch.fired@.skip(base)),
                is_inner(cur) ==> forall|k: int|
                    0 <= k < scratch.fired@.skip(base).len() ==> (#[trigger] scratch.fired@.skip(
                        base,
                    )[k]).0 < node_of(n0, cur).value,
                arcs_ok(manager.nodes(), ev, p as int, d, scratch.fired@.skip(base)),
                fx == effects(n0, ev),
                task == (Task::Values { p: p as int, a, rel: vectors(n0, rel), meta: m }),
                is_inner(cur) ==> agree_from(
                    vectors(n0, cur),
                    vectors(n0, rel),
                    node_of(n0, cur).value,
                ),
                goal == reachable(n0, ev, p + 1, p as int, written(a, vectors(n0, rel), m)),
                arcs_vectors(manager.nodes(), scratch.fired@.skip(base)).union(
                    reachable(n0, ev, p + 1, p as int, written(a, vectors(n0, cur), m)),
                ) == goal,
            decreases cur.id,
        {
            let ghost n1 = manager.nodes();
            let ghost f1 = scratch.fired@.skip(base);
            proof {
                lemma_stable(n0, n1, ev);
            }
            match manager.get_node(cur) {
                Node::Inner(n) => {
                    proof {
                        lemma_inner(n0, cur);
                        lemma_agree_split(
                            n.value,
                            vectors(n0, n.down),
                            vectors(n0, n.right),
                            vectors(n0, rel),
                        );
                        let w = lemma_nonempty(n0, n.down);
                        assert(vectors(n0, n.down).contains(w));
                        lemma_demand_values(fx, p as int, a, vectors(n0, rel), m, n.value);
                    }
                    let f = self.sat_rec_fire(
                        manager,
                        scratch,
                        arc_i,
                        n.down,
                        meta,
                        p + 1,
                        Ghost(d),
                    );
                    proof {
                        if f is Err {
                            let part = Task::Fire {
                                p: p + 1,
                                a,
                                rel: vectors(n0, n.down),
                                meta: m,
                            };
                            lemma_lacks(manager.nodes(), fx, task, part);
                        }
                    }
                    let f = f?;
                    let ghost n2 = manager.nodes();
                    proof {
                        lemma_stable(n1, n2, ev);
                        lemma_arcs_extends(n1, n2, ev, p as int, d, f1);
                        lemma_fits_len(n0, arc_i, d);
                        let s = image(a, vectors(n0, n.down), m);
                        lemma_image_len(a, vectors(n0, n.down), m, d);
                        lemma_fired(n0, n2, ev, p as int, d, f1, n.value, f, s);
                        lemma_written_split(
                            a,
                            n.value,
                            vectors(n0, n.down),
                            vectors(n0, n.right),
                            m,
                        );
                        lemma_closure_union(
                            step_rel(n0, ev, p + 1, p as int),
                            prefixed(n.value, s),
                            written(a, vectors(n0, n.right), m),
                        );
                    }
                    if f.id != 0 {
                        scratch.fired.push((n.value, f));
                    }
                    proof {
                        if f.id != 0 {
                            assert(scratch.fired@.skip(base) =~= f1.push((n.value, f)));
                            assert(scratch.fired@.take(base) =~= s0.fired@);
                        }
                        assert(arcs_vectors(n2, scratch.fired@.skip(base)).union(
                            reachable(
                                n0,
                                ev,
                                p + 1,
                                p as int,
                                written(a, vectors(n0, n.right), m),
                            ),
                        ) =~= goal);
                    }
                    cur = n.right;
                },
                Node::Terminal(_) => {
                    proof {
                        lemma_terminals(n0);
                        assert(written(a, vectors(n0, cur), m) =~= Set::<Seq<u32>>::empty());
                        lemma_reachable_empty(n0, ev, p + 1, p as int);
                        assert(arcs_vectors(n1, f1) =~= goal);
                    }
                    return Ok(());
                },
            }
        }
    }

    /// Fires `event`, whose `top` is the position of the node that is being saturated, out of the
    /// single value `i` of that node. The continuation of `i` is `arc_i`, and it is already
    /// saturated. Pushes the resulting `(value, subtree)` pairs onto `scratch.fired`, where every
    /// subtree is already saturated by [`Self::sat_rec_fire`].
    fn sat_fire_top(
        &self,
        manager: &mut LDDManager,
        scratch: &mut Scratch,
        event: &SaturationEvent,
        i: u32,
        arc_i: LDDEdge,
        Ghost(h): Ghost<nat>,
    ) -> (r: AllocResult<()>)
        requires
            self.ready(old(manager), event.top + 1),
            event_ok(old(manager).nodes(), *event),
            h >= 1,
            event.top + h <= u32::MAX,
            arc_ok(old(manager).nodes(), self.events@, event.top as int, (h - 1) as nat, arc_i),
        ensures
            self.fires_to(
                old(manager),
                final(manager),
                old(scratch),
                final(scratch),
                r,
                event.top as int,
                h,
                image(
                    prefixed(i, old(manager).vectors(arc_i)),
                    old(manager).vectors(event.relation),
                    meta_of(old(manager).nodes(), event.meta_at_top),
                ),
                Task::Top {
                    p: event.top as int,
                    i,
                    a: old(manager).vectors(arc_i),
                    rel: old(manager).vectors(event.relation),
                    meta: meta_of(old(manager).nodes(), event.meta_at_top),
                },
            ),
            image(
                prefixed(i, old(manager).vectors(arc_i)),
                old(manager).vectors(event.relation),
                meta_of(old(manager).nodes(), event.meta_at_top),
            ) == Set::<Seq<u32>>::empty() ==> r is Ok && final(scratch).fired@ == old(
                scratch,
            ).fired@,
        decreases h, 1int, 0int, 1int,
    {
        let ghost n0 = manager.nodes();
        let ghost ev = self.events@;
        let ghost a = vectors(n0, arc_i);
        let ghost rel = vectors(n0, event.relation);
        let ghost m = meta_of(n0, event.meta_at_top);
        let ghost d = (h - 1) as nat;
        let ghost p = event.top as int;
        let ghost base = scratch.fired@.len() as int;
        let ghost m0 = *manager;
        let ghost s0 = *scratch;
        let ghost fx = effects(n0, ev);
        let ghost task = Task::Top { p, i, a, rel, meta: m };
        let meta_node = match manager.get_node(event.meta_at_top) {
            Node::Inner(n) => n,
            Node::Terminal(_) => vstd::pervasive::unreached(),
        };
        proof {
            lemma_inner(n0, event.meta_at_top);
            lemma_meta_inner(n0, event.meta_at_top);
            lemma_image_empty(a, rel, m.drop_first());
            lemma_image_empty(a, rel, m.drop_first().drop_first());
            lemma_reachable_empty(n0, ev, p + 1, p);
            lemma_demand_top(fx, p, i, a, rel, m);
            assert(scratch.fired@.skip(base) =~= Seq::<(u32, LDDEdge)>::empty());
            assert(arcs_vectors(n0, scratch.fired@.skip(base)) =~= Set::<Seq<u32>>::empty());
            assert(scratch.fired@.take(base) =~= scratch.fired@);
            if m[0] == WRITE_ONLY {
                let none = Set::<Seq<u32>>::empty();
                lemma_image_write(i, a, none, rel, m);
                lemma_image_empty(a, rel, m);
                assert(prefixed(i, a).union(none) =~= prefixed(i, a));
                assert(written(a, rel, m.drop_first()).union(none) =~= written(
                    a,
                    rel,
                    m.drop_first(),
                ));
            } else {
                lemma_image_single(i, a, rel, m);
            }
        }
        let result = if meta_node.value == READ_ONLY {
            // The value stays as it is; the event only fires if the relation has an entry for it.
            match spine_lookup(manager, event.relation, i) {
                Some(rel_down) => {
                    proof {
                        let w = lemma_nonempty(n0, rel_down);
                        assert(vectors(n0, rel_down).contains(w));
                    }
                    let f = self.sat_rec_fire(
                        manager,
                        scratch,
                        arc_i,
                        rel_down,
                        meta_node.down,
                        event.top + 1,
                        Ghost(d),
                    );
                    proof {
                        if f is Err {
                            let part = Task::Fire {
                                p: p + 1,
                                a,
                                rel: tails(rel, i),
                                meta: m.drop_first(),
                            };
                            lemma_lacks(manager.nodes(), fx, task, part);
                            if image(prefixed(i, a), rel, m) == Set::<Seq<u32>>::empty() {
                                lemma_demand_idle(manager.nodes(), fx, task);
                            }
                        }
                    }
                    let f = f?;
                    proof {
                        let n1 = manager.nodes();
                        let s = image(a, tails(rel, i), m.drop_first());
                        lemma_fits_len(n0, arc_i, d);
                        lemma_image_len(a, tails(rel, i), m.drop_first(), d);
                        let none = Seq::<(u32, LDDEdge)>::empty();
                        lemma_fired(n0, n1, ev, p, d, none, i, f, s);
                        assert(arcs_vectors(n1, none) =~= Set::<Seq<u32>>::empty());
                        assert(Set::<Seq<u32>>::empty().union(
                            reachable(n0, ev, p + 1, p, prefixed(i, s)),
                        ) =~= reachable(n0, ev, p + 1, p, prefixed(i, s)));
                    }
                    if f.id != 0 {
                        scratch.fired.push((i, f));
                    }
                    proof {
                        if f.id != 0 {
                            assert(scratch.fired@.skip(base) =~= Seq::<
                                (u32, LDDEdge),
                            >::empty().push((i, f)));
                        }
                        assert(scratch.fired@.take(base) =~= old(scratch).fired@);
                    }
                },
                None => {
                    assert(prefixed(i, Set::<Seq<u32>>::empty()) =~= Set::<Seq<u32>>::empty());
                },
            }
            Ok(())
        } else if meta_node.value == WRITE_ONLY {
            // Every value of the relation is a possible successor, whatever the value was.
            let result = self.fire_values(
                manager,
                scratch,
                arc_i,
                event.relation,
                meta_node.down,
                event.top,
                Ghost(h),
            );
            proof {
                if result is Err {
                    let part = Task::Values { p, a, rel, meta: m.drop_first() };
                    lemma_lacks(manager.nodes(), fx, task, part);
                }
            }
            result
        } else {
            // The relation has to have an entry for the value, below which are the successors.
            match spine_lookup(manager, event.relation, i) {
                Some(rel_down) => {
                    proof {
                        lemma_inner(n0, meta_node.down);
                        lemma_meta_inner(n0, meta_node.down);
                        let w = lemma_nonempty(n0, rel_down);
                        assert(vectors(n0, rel_down).contains(w));
                    }
                    let write_node = match manager.get_node(meta_node.down) {
                        Node::Inner(n) => n,
                        Node::Terminal(_) => vstd::pervasive::unreached(),
                    };
                    let result = self.fire_values(
                        manager,
                        scratch,
                        arc_i,
                        rel_down,
                        write_node.down,
                        event.top,
                        Ghost(h),
                    );
                    proof {
                        if result is Err {
                            let part = Task::Values {
                                p,
                                a,
                                rel: tails(rel, i),
                                meta: m.drop_first().drop_first(),
                            };
                            lemma_lacks(manager.nodes(), fx, task, part);
                        }
                    }
                    result
                },
                None => Ok(()),
            }
        };
        proof {
            let s = image(prefixed(i, a), rel, m);
            if s == Set::<Seq<u32>>::empty() {
                self.lemma_idle_fired(m0, *manager, s0, *scratch, result, p, h, s, task);
            }
        }
        result
    }


    /// What firing out of one value achieves: pairs on top of `fired` that stand for the vectors
    /// that are reachable from `s` by the events that start below position `p`.
    spec fn fires_to(
        &self,
        before: &LDDManager,
        after: &LDDManager,
        s0: &Scratch,
        s1: &Scratch,
        r: AllocResult<()>,
        p: int,
        h: nat,
        s: Set<Seq<u32>>,
        task: Task,
    ) -> bool {
        let new = s1.fired@.skip(s0.fired@.len() as int);
        &&& after.wf()
        &&& before.grows_to(after)
        &&& s1.arcs@ == s0.arcs@
        &&& s1.frontier@ == s0.frontier@
        &&& stacked(s0.fired@, s1.fired@)
        &&& match r {
            Ok(_) => {
                &&& sorted(new)
                &&& arcs_ok(after.nodes(), self.events@, p, (h - 1) as nat, new)
                &&& arcs_vectors(after.nodes(), new) == reachable(
                    before.nodes(),
                    self.events@,
                    p + 1,
                    p,
                    s,
                )
            },
            Err(_) => self.stuck(before, after, task),
        }
    }

    /// Firing that leads to no vector succeeds, and pushes nothing.
    proof fn lemma_idle_fired(
        &self,
        before: LDDManager,
        after: LDDManager,
        s0: Scratch,
        s1: Scratch,
        r: AllocResult<()>,
        p: int,
        h: nat,
        s: Set<Seq<u32>>,
        task: Task,
    )
        requires
            self.fires_to(&before, &after, &s0, &s1, r, p, h, s, task),
            is_idle(task),
            s == Set::<Seq<u32>>::empty(),
        ensures
            r is Ok,
            s1.fired@ == s0.fired@,
    {
        let fx = effects(before.nodes(), self.events@);
        let new = s1.fired@.skip(s0.fired@.len() as int);
        lemma_demand_idle(after.nodes(), fx, task);
        lemma_reachable_empty(before.nodes(), self.events@, p + 1, p);
        if new.len() > 0 {
            let (v, e) = new[0];
            assert(arc_ok(after.nodes(), self.events@, p, (h - 1) as nat, new[0].1));
            let w = lemma_nonempty(after.nodes(), e);
            assert(vectors(after.nodes(), e).contains(w));
            lemma_cons(v, w);
            assert(prefixed(new[0].0, vectors(after.nodes(), new[0].1)).contains(cons(v, w)));
            assert(arcs_vectors(after.nodes(), new).contains(cons(v, w)));
        }
        assert(s1.fired@ =~= s1.fired@.take(s0.fired@.len() as int));
    }

    /// Saturates every child of `q`, which sits at position `p`, and pushes the values of `q` with
    /// their saturated continuations onto `scratch.arcs`.
    fn saturate_children(
        &self,
        manager: &mut LDDManager,
        scratch: &mut Scratch,
        q: LDDEdge,
        p: u32,
        Ghost(h): Ghost<nat>,
    ) -> (r: AllocResult<()>)
        requires
            self.ready(old(manager), p + 1),
            is_inner(q),
            fits(old(manager).nodes(), q, h),
            p + h <= u32::MAX,
        ensures
            final(manager).wf(),
            old(manager).grows_to(final(manager)),
            final(scratch).frontier@ == old(scratch).frontier@,
            final(scratch).fired@ == old(scratch).fired@,
            stacked(old(scratch).arcs@, final(scratch).arcs@),
            match r {
                Ok(_) => {
                    let own = final(scratch).arcs@.skip(old(scratch).arcs@.len() as int);
                    &&& sorted(own)
                    &&& arcs_ok(
                        final(manager).nodes(),
                        self.events@,
                        p as int,
                        (h - 1) as nat,
                        own,
                    )
                    &&& arcs_vectors(final(manager).nodes(), own) == reachable(
                        old(manager).nodes(),
                        self.events@,
                        p + 1,
                        p as int,
                        old(manager).vectors(q),
                    )
                },
                Err(_) => self.stuck(
                    old(manager),
                    final(manager),
                    Task::Saturate { p: p as int, s: old(manager).vectors(q) },
                ),
            },
        decreases h, 1int, 0int, 3int,
    {
        let ghost n0 = manager.nodes();
        let ghost m0 = *manager;
        let ghost s0 = *scratch;
        let ghost ev = self.events@;
        let ghost base = scratch.arcs@.len() as int;
        let ghost goal = reachable(n0, ev, p + 1, p as int, vectors(n0, q));
        let ghost fx = effects(n0, ev);
        let ghost task = Task::Saturate { p: p as int, s: vectors(n0, q) };
        let mut cur = q;
        proof {
            lemma_inner(n0, q);
            assert(scratch.arcs@.skip(base) =~= Seq::<(u32, LDDEdge)>::empty());
            assert(arcs_vectors(n0, scratch.arcs@.skip(base)) =~= Set::<Seq<u32>>::empty());
            assert(arcs_vectors(n0, scratch.arcs@.skip(base)).union(goal) =~= goal);
            assert(scratch.arcs@.take(base) =~= s0.arcs@);
        }
        let ghost d = (h - 1) as nat;
        loop
            invariant
                self.ready(manager, p + 1),
                m0 == *old(manager),
                s0 == *old(scratch),
                self.ready(&m0, p + 1),
                n0 == m0.nodes(),
                m0.grows_to(manager),
                ev == self.events@,
                h >= 1,
                d == h - 1,
                p + h <= u32::MAX,
                fits(n0, cur, h),
                cur != unit(),
                base == s0.arcs@.len(),
                scratch.frontier@ == s0.frontier@,
                scratch.fired@ == s0.fired@,
                stacked(s0.arcs@, scratch.arcs@),
                sorted(scratch.arcs@.skip(base)),
                is_inner(cur) ==> forall|k: int|
                    0 <= k < scratch.arcs@.skip(base).len() ==> (#[trigger] scratch.arcs@.skip(
                        base,
                    )[k]).0 < node_of(n0, cur).value,
                arcs_ok(manager.nodes(), ev, p as int, d, scratch.arcs@.skip(base)),
                fx == effects(n0, ev),
                task == (Task::Saturate { p: p as int, s: vectors(n0, q) }),
                is_inner(cur) ==> agree_from(
                    vectors(n0, cur),
                    vectors(n0, q),
                    node_of(n0, cur).value,
                ),
                goal == reachable(n0, ev, p + 1, p as int, vectors(n0, q)),
                arcs_vectors(manager.nodes(), scratch.arcs@.skip(base)).union(
                    reachable(n0, ev, p + 1, p as int, vectors(n0, cur)),
                ) == goal,
            decreases cur.id,
        {
            let ghost n1 = manager.nodes();
            let ghost a1 = scratch.arcs@.skip(base);
            proof {
                lemma_stable(n0, n1, ev);
            }
            match manager.get_node(cur) {
                Node::Inner(n) => {
                    proof {
                        lemma_inner(n0, cur);
                        lemma_agree_split(
                            n.value,
                            vectors(n0, n.down),
                            vectors(n0, n.right),
                            vectors(n0, q),
                        );
                        let w = lemma_nonempty(n0, n.down);
                        assert(vectors(n0, n.down).contains(w));
                        lemma_demand_child(fx, p as int, vectors(n0, q), n.value);
                    }
                    let down_sat = self.saturate_rec(manager, scratch, n.down, p + 1, Ghost(d));
                    proof {
                        if down_sat is Err {
                            let part = Task::Saturate { p: p + 1, s: vectors(n0, n.down) };
                            lemma_lacks(manager.nodes(), fx, task, part);
                        }
                    }
                    let down_sat = down_sat?;
                    let ghost n2 = manager.nodes();
                    scratch.arcs.push((n.value, down_sat));
                    proof {
                        lemma_stable(n1, n2, ev);
                        lemma_arcs_extends(n1, n2, ev, p as int, d, a1);
                        let s = vectors(n0, n.down);
                        lemma_fits_len(n0, n.down, d);
                        lemma_fired(n0, n2, ev, p as int, d, a1, n.value, down_sat, s);
                        lemma_closure_closed(step_rel(n0, ev, p + 1, p + 1), s);
                        let w = lemma_nonempty(n0, n.down);
                        assert(s.contains(w));
                        lemma_terminals(n2);
                        assert(vectors(n2, down_sat).contains(w));
                        lemma_closure_union(
                            step_rel(n0, ev, p + 1, p as int),
                            prefixed(n.value, s),
                            vectors(n0, n.right),
                        );
                        assert(scratch.arcs@.skip(base) =~= a1.push((n.value, down_sat)));
                        assert(scratch.arcs@.take(base) =~= s0.arcs@);
                        assert(arcs_vectors(n2, scratch.arcs@.skip(base)).union(
                            reachable(n0, ev, p + 1, p as int, vectors(n0, n.right)),
                        ) =~= goal);
                    }
                    cur = n.right;
                },
                Node::Terminal(_) => {
                    proof {
                        lemma_terminals(n0);
                        lemma_reachable_empty(n0, ev, p + 1, p as int);
                        assert(arcs_vectors(n1, a1) =~= goal);
                    }
                    return Ok(());
                },
            }
        }
    }

    /// Fires every event whose `top` is `p` out of the value `i` of the node that is being
    /// saturated, and unites the results into the arcs of that node. The values whose continuation
    /// actually grew are queued.
    fn fire_value(
        &self,
        manager: &mut LDDManager,
        scratch: &mut Scratch,
        p: u32,
        i: u32,
        arcs_base: usize,
        next: usize,
        Ghost(h): Ghost<nat>,
        Ghost(c): Ghost<Set<Seq<u32>>>,
    ) -> (r: AllocResult<()>)
        requires
            self.ready(old(manager), p as int),
            h >= 1,
            p + h <= u32::MAX,
            arcs_base <= old(scratch).arcs@.len(),
            next <= old(scratch).frontier@.len(),
            level_ok(
                old(manager).nodes(),
                self.events@,
                p as int,
                (h - 1) as nat,
                arcs_above(old(scratch).arcs@, arcs_base),
                old(scratch).frontier@.skip(next as int),
                c,
            ),
            has_value(arcs_above(old(scratch).arcs@, arcs_base), i),
            finished(
                old(manager).nodes(),
                self.events@,
                p as int,
                arcs_above(old(scratch).arcs@, arcs_base),
                old(scratch).frontier@.skip(next as int).push(i),
            ),
            saturated(old(manager).nodes(), self.events@, p as int, p as int, c),
        ensures
            final(manager).wf(),
            old(manager).grows_to(final(manager)),
            arcs_base <= final(scratch).arcs@.len(),
            next <= final(scratch).frontier@.len(),
            final(scratch).arcs@.take(arcs_base as int) == old(scratch).arcs@.take(
                arcs_base as int,
            ),
            final(scratch).frontier@.take(next as int) == old(scratch).frontier@.take(
                next as int,
            ),
            stacked(old(scratch).fired@, final(scratch).fired@),
            match r {
                Ok(_) => {
                    let a0 = arcs_above(old(scratch).arcs@, arcs_base);
                    let a1 = arcs_above(final(scratch).arcs@, arcs_base);
                    let p0 = old(scratch).frontier@.skip(next as int);
                    let p1 = final(scratch).frontier@.skip(next as int);
                    &&& final(scratch).fired@ == old(scratch).fired@
                    &&& level_ok(
                        final(manager).nodes(),
                        self.events@,
                        p as int,
                        (h - 1) as nat,
                        a1,
                        p1,
                        c,
                    )
                    &&& finished(final(manager).nodes(), self.events@, p as int, a1, p1)
                    &&& arcs_vectors(old(manager).nodes(), a0).subset_of(
                        arcs_vectors(final(manager).nodes(), a1),
                    )
                    &&& (a1 == a0 && p1 == p0) || missing(
                        h,
                        arcs_vectors(final(manager).nodes(), a1),
                    ) < missing(h, arcs_vectors(old(manager).nodes(), a0))
                    &&& involves(
                        effects(old(manager).nodes(), self.events@),
                        Task::Level {
                            p: p as int,
                            held: arcs_vectors(old(manager).nodes(), a0),
                        },
                        Task::Level {
                            p: p as int,
                            held: arcs_vectors(final(manager).nodes(), a1),
                        },
                    )
                },
                Err(_) => self.stuck(
                    old(manager),
                    final(manager),
                    Task::Level {
                        p: p as int,
                        held: arcs_vectors(
                            old(manager).nodes(),
                            arcs_above(old(scratch).arcs@, arcs_base),
                        ),
                    },
                ),
            },
        decreases h, 1int, 0int, 2int,
    {
        let ghost n0 = manager.nodes();
        let ghost m0 = *manager;
        let ghost s0 = *scratch;
        let ghost ev = self.events@;
        let ghost d = (h - 1) as nat;
        let ghost a0 = arcs_above(scratch.arcs@, arcs_base);
        let ghost p0 = scratch.frontier@.skip(next as int);
        let pos: usize = arc_position(&scratch.arcs, arcs_base, i);
        let arc_i = scratch.arcs[pos].1;
        proof {
            assert(a0[pos - arcs_base] == scratch.arcs@[pos as int]);
            assert(arc_ok(n0, ev, p as int, d, arc_i));
        }
        let ghost a = prefixed(i, vectors(n0, arc_i));
        let ghost va = vectors(n0, arc_i);
        let ghost held0 = arcs_vectors(n0, a0);
        let ghost fx = effects(n0, ev);
        let ghost task = Task::Level { p: p as int, held: held0 };
        let ghost start = Task::Value { p: p as int, held: held0, i, a: va };
        proof {
            assert forall|w: Seq<u32>| tails(held0, i).contains(w) == va.contains(w) by {
                lemma_arcs_tails(n0, a0, pos - arcs_base, w);
            }
            assert(tails(held0, i) =~= va);
            let w = lemma_nonempty(n0, arc_i);
            assert(va.contains(w));
            lemma_demand_level(fx, p as int, held0, i);
        }

        let fired_base: usize = scratch.fired.len();
        let mut k: usize = 0;
        proof {
            assert(scratch.fired@.skip(fired_base as int) =~= Seq::<(u32, LDDEdge)>::empty());
            assert(arcs_vectors(n0, scratch.fired@.skip(fired_base as int)) =~= Set::<
                Seq<u32>,
            >::empty());
            assert(scratch.fired@.take(fired_base as int) =~= s0.fired@);
        }
        while k < self.events.len()
            invariant
                self.ready(manager, p as int),
                m0 == *old(manager),
                s0 == *old(scratch),
                self.ready(&m0, p as int),
                n0 == m0.nodes(),
                m0.grows_to(manager),
                ev == self.events@,
                h >= 1,
                d == h - 1,
                p + h <= u32::MAX,
                arcs_base <= s0.arcs@.len(),
                next <= s0.frontier@.len(),
                a0 == arcs_above(s0.arcs@, arcs_base),
                p0 == s0.frontier@.skip(next as int),
                level_ok(n0, ev, p as int, d, a0, p0, c),
                arc_ok(n0, ev, p as int, d, arc_i),
                a == prefixed(i, vectors(n0, arc_i)),
                a.subset_of(c),
                saturated(n0, ev, p as int, p as int, c),
                k <= ev.len(),
                fired_base == s0.fired@.len(),
                scratch.arcs@ == s0.arcs@,
                scratch.frontier@ == s0.frontier@,
                stacked(s0.fired@, scratch.fired@),
                arcs_ok(
                    manager.nodes(),
                    ev,
                    p as int,
                    d,
                    scratch.fired@.skip(fired_base as int),
                ),
                arcs_vectors(manager.nodes(), scratch.fired@.skip(fired_base as int)).subset_of(c),
                va == vectors(n0, arc_i),
                held0 == arcs_vectors(n0, a0),
                fx == effects(n0, ev),
                task == (Task::Level { p: p as int, held: held0 }),
                start == (Task::Value { p: p as int, held: held0, i, a: va }),
                involves(fx, task, start),
                all_added(
                    fx,
                    manager.nodes(),
                    p as int,
                    i,
                    va,
                    scratch.fired@.skip(fired_base as int),
                ),
                fired_so_far(
                    n0,
                    ev,
                    p as int,
                    k as int,
                    a,
                    arcs_vectors(manager.nodes(), scratch.fired@.skip(fired_base as int)),
                ),
            decreases ev.len() - k,
        {
            if self.events[k].top == p {
                let ghost n1 = manager.nodes();
                let ghost f1 = scratch.fired@;
                proof {
                    lemma_stable(n0, n1, ev);
                    assert(event_ok(n1, ev[k as int]));
                    lemma_arcs_extends_one(n0, n1, ev, p as int, d, arc_i);
                }
                let result = self.sat_fire_top(
                    manager,
                    scratch,
                    &self.events[k],
                    i,
                    arc_i,
                    Ghost(h),
                );
                proof {
                    assert(event_ok(n0, ev[k as int]));
                    assert(fx.starts(k as int, p as int));
                    if result is Err {
                        let part = Task::Top {
                            p: p as int,
                            i,
                            a: va,
                            rel: fx.events[k as int].relation,
                            meta: fx.events[k as int].meta,
                        };
                        lemma_demand_event(fx, p as int, held0, i, va, k as int);
                        lemma_involves_trans(fx, task, start, part);
                        lemma_lacks(manager.nodes(), fx, task, part);
                    }
                    assert(scratch.fired@.take(fired_base as int) =~= scratch.fired@.take(
                        f1.len() as int,
                    ).take(fired_base as int));
                }
                result?;
                proof {
                    let n2 = manager.nodes();
                    let f2 = scratch.fired@;
                    lemma_stable(n1, n2, ev);
                    let old_part = f1.skip(fired_base as int);
                    let new_part = f2.skip(f1.len() as int);
                    lemma_arcs_extends(n1, n2, ev, p as int, d, old_part);
                    assert forall|x: int| 0 <= x < f1.len() implies f2[x] == f1[x] by {
                        assert(f2.take(f1.len() as int)[x] == f1[x]);
                    }
                    assert(f2.skip(fired_base as int) =~= old_part + new_part);
                    lemma_added_more(
                        fx,
                        n1,
                        n2,
                        ev,
                        p as int,
                        d,
                        i,
                        va,
                        old_part,
                        new_part,
                        k as int,
                    );
                    lemma_arcs_concat(n2, ev, p as int, d, old_part, new_part);
                    assert(event_ok(n0, ev[k as int]));
                    let s = image(
                        a,
                        vectors(n0, ev[k as int].relation),
                        meta_of(n0, ev[k as int].meta_at_top),
                    );
                    lemma_image_within(n0, ev, k as int, p as int, a, c);
                    lemma_closure_closed(step_rel(n0, ev, p + 1, p as int), s);
                    assert(step_rel(n1, ev, p + 1, p as int) == step_rel(n0, ev, p + 1, p as int));
                    assert(s.subset_of(arcs_vectors(n2, new_part)));
                    assert(s.subset_of(arcs_vectors(n2, f2.skip(fired_base as int))));
                }
            }
            k += 1;
        }

        let ghost n3 = manager.nodes();
        let ghost fired = scratch.fired@.skip(fired_base as int);
        let ghost all = arcs_vectors(n3, fired);
        proof {
            lemma_stable(n0, n3, ev);
            lemma_level_extends(n0, n3, ev, p as int, d, a0, p0, c);
            lemma_finished_extends(n0, n3, ev, p as int, a0, p0.push(i), d);
            assert(arcs_above(scratch.arcs@, arcs_base) == a0);
            assert forall|x: int| 0 <= x < a0.len() && !p0.contains((#[trigger] a0[x]).0) implies (
            if a0[x].0 == i {
                a0[x].1 == arc_i
            } else {
                successors_in(n3, ev, p as int, a0[x].0, a0[x].1, arcs_vectors(n3, a0))
            }) by {
                if a0[x].0 == i {
                    assert(x == pos - arcs_base);
                } else {
                    assert(!p0.push(i).contains(a0[x].0)) by {
                        if p0.push(i).contains(a0[x].0) {
                            let y = choose|y: int|
                                0 <= y < p0.push(i).len() && p0.push(i)[y] == a0[x].0;
                            assert(p0[y] == a0[x].0);
                        }
                    }
                }
            }
            assert(fired.take(0) =~= Seq::<(u32, LDDEdge)>::empty());
            assert(arcs_vectors(n3, fired.take(0)) =~= Set::<Seq<u32>>::empty());
            lemma_arcs_extends(n0, n3, ev, p as int, d, a0);
        }
        let mut t: usize = fired_base;
        while t < scratch.fired.len()
            invariant
                manager.wf(),
                m0 == *old(manager),
                s0 == *old(scratch),
                self.ready(&m0, p as int),
                n0 == m0.nodes(),
                m0.grows_to(manager),
                is_ldd(n3),
                extends(n3, manager.nodes()),
                ev == self.events@,
                events_known(n3, ev),
                h >= 1,
                d == h - 1,
                fired_base == s0.fired@.len(),
                fired_base <= t <= scratch.fired@.len(),
                stacked(s0.fired@, scratch.fired@),
                fired == scratch.fired@.skip(fired_base as int),
                arcs_ok(n3, ev, p as int, d, fired),
                all == arcs_vectors(n3, fired),
                all.subset_of(c),
                arcs_base <= s0.arcs@.len(),
                arcs_base <= scratch.arcs@.len(),
                scratch.arcs@.take(arcs_base as int) == s0.arcs@.take(arcs_base as int),
                next <= s0.frontier@.len(),
                next <= scratch.frontier@.len(),
                scratch.frontier@.take(next as int) == s0.frontier@.take(next as int),
                a0 == arcs_above(s0.arcs@, arcs_base),
                p0 == s0.frontier@.skip(next as int),
                arcs_ok(n0, ev, p as int, d, a0),
                level_ok(
                    manager.nodes(),
                    ev,
                    p as int,
                    d,
                    arcs_above(scratch.arcs@, arcs_base),
                    scratch.frontier@.skip(next as int),
                    c,
                ),
                finished_but(
                    manager.nodes(),
                    ev,
                    p as int,
                    arcs_above(scratch.arcs@, arcs_base),
                    scratch.frontier@.skip(next as int),
                    i,
                    arc_i,
                ),
                fx == effects(n0, ev),
                fx == effects(n3, ev),
                task == (Task::Level { p: p as int, held: held0 }),
                held0 == arcs_vectors(n0, a0),
                all_added(fx, n3, p as int, i, va, fired),
                involves(
                    fx,
                    task,
                    Task::Value {
                        p: p as int,
                        held: arcs_vectors(manager.nodes(), arcs_above(scratch.arcs@, arcs_base)),
                        i,
                        a: va,
                    },
                ),
                arcs_vectors(n3, fired.take(t - fired_base)).subset_of(
                    arcs_vectors(manager.nodes(), arcs_above(scratch.arcs@, arcs_base)),
                ),
                arcs_vectors(n0, a0).subset_of(
                    arcs_vectors(manager.nodes(), arcs_above(scratch.arcs@, arcs_base)),
                ),
                (arcs_above(scratch.arcs@, arcs_base) == a0 && scratch.frontier@.skip(next as int)
                    == p0) || missing(
                    h,
                    arcs_vectors(manager.nodes(), arcs_above(scratch.arcs@, arcs_base)),
                ) < missing(h, arcs_vectors(n0, a0)),
            decreases scratch.fired@.len() - t,
        {
            let (j, f) = scratch.fired[t];
            let ghost n4 = manager.nodes();
            let ghost a4 = arcs_above(scratch.arcs@, arcs_base);
            let ghost p4 = scratch.frontier@.skip(next as int);
            proof {
                assert(fired[t - fired_base] == (j, f));
                assert(arc_ok(n3, ev, p as int, d, f));
                lemma_stable(n3, n4, ev);
                lemma_arcs_extends_one(n3, n4, ev, p as int, d, f);
                assert forall|x: Seq<u32>| prefixed(j, vectors(n3, f)).contains(x) implies c.contains(
                    x,
                ) by {
                    assert(all.contains(x));
                }
            }
            let ghost held4 = arcs_vectors(n4, a4);
            let ghost now = Task::Value { p: p as int, held: held4, i, a: va };
            let ghost e = choose|e: int|
                fx.starts(e, p as int) && #[trigger] added(fx, p as int, i, va, e, j) == vectors(
                    n3,
                    f,
                );
            proof {
                assert(is_added(fx, n3, p as int, i, va, fired[t - fired_base]));
                let w = lemma_nonempty(n3, f);
                assert(vectors(n3, f).contains(w));
                assert(inhabited(added(fx, p as int, i, va, e, j)));
                lemma_demand_unite(fx, p as int, held4, i, va, e, j);
            }
            let result = unite(
                manager,
                scratch,
                arcs_base,
                next,
                j,
                f,
                Ghost(ev),
                Ghost(p as int),
                Ghost(d),
                Ghost(c),
                Ghost(i),
                Ghost(arc_i),
            );
            proof {
                if result is Err {
                    lemma_lacks_built(
                        manager.nodes(),
                        fx,
                        now,
                        tails(held4, j).union(vectors(n3, f)),
                    );
                    lemma_lacks(manager.nodes(), fx, task, now);
                } else {
                    let next_held = held4.union(prefixed(j, vectors(n3, f)));
                    lemma_involves_trans(
                        fx,
                        task,
                        now,
                        Task::Value { p: p as int, held: next_held, i, a: va },
                    );
                }
            }
            result?;
            proof {
                let n5 = manager.nodes();
                assert(fired.take(t + 1 - fired_base) =~= fired.take(t - fired_base).push((j, f)));
                lemma_arcs_push(n3, fired.take(t - fired_base), j, f);
                assert(h == d + 1);
                if a4 == a0 {
                    lemma_arcs_extends(n0, n4, ev, p as int, d, a0);
                }
                if arcs_above(scratch.arcs@, arcs_base) == a4 && scratch.frontier@.skip(next as int)
                    == p4 {
                    lemma_arcs_extends(n4, n5, ev, p as int, d, a4);
                }
            }
            t += 1;
        }
        proof {
            let n6 = manager.nodes();
            lemma_stable(n3, n6, ev);
            lemma_stable(n0, n6, ev);
            let a6 = arcs_above(scratch.arcs@, arcs_base);
            let p6 = scratch.frontier@.skip(next as int);
            assert(fired.take(t - fired_base) =~= fired);
            assert forall|x: int| 0 <= x < a6.len() && !p6.contains(
                (#[trigger] a6[x]).0,
            ) implies successors_in(n6, ev, p as int, a6[x].0, a6[x].1, arcs_vectors(n6, a6)) by {
                if a6[x].0 == i {
                    assert(a6[x].1 == arc_i);
                    assert forall|e: int|
                        0 <= e < ev.len() && (#[trigger] ev[e]).top == p implies image(
                        prefixed(i, vectors(n6, arc_i)),
                        vectors(n6, ev[e].relation),
                        meta_of(n6, ev[e].meta_at_top),
                    ).subset_of(arcs_vectors(n6, a6)) by {
                        assert(event_ok(n0, ev[e]));
                        assert(image(
                            a,
                            vectors(n0, ev[e].relation),
                            meta_of(n0, ev[e].meta_at_top),
                        ).subset_of(all));
                    }
                }
            }
        }
        scratch.fired.truncate(fired_base);
        proof {
            assert(scratch.fired@ =~= s0.fired@);
            let held6 = arcs_vectors(manager.nodes(), arcs_above(scratch.arcs@, arcs_base));
            lemma_demand_rest(fx, p as int, held6, i, va);
            lemma_involves_trans(
                fx,
                task,
                Task::Value { p: p as int, held: held6, i, a: va },
                Task::Level { p: p as int, held: held6 },
            );
        }
        Ok(())
    }

    /// Computes the saturation of `q`, which sits at position `p`.
    ///
    /// The node is saturated in three steps: (1) saturate the children, which gives the
    /// continuations of a node that is closed under all events *below* position `p`, (2) close it
    /// under the events *at* `p`, and (3) build the resulting node once.
    fn saturate_node(
        &self,
        manager: &mut LDDManager,
        scratch: &mut Scratch,
        q: LDDEdge,
        p: u32,
        arcs_base: usize,
        frontier_base: usize,
        Ghost(h): Ghost<nat>,
    ) -> (r: AllocResult<LDDEdge>)
        requires
            self.ready(old(manager), p as int),
            is_inner(q),
            fits(old(manager).nodes(), q, h),
            p + h <= u32::MAX,
            arcs_base == old(scratch).arcs@.len(),
            frontier_base == old(scratch).frontier@.len(),
        ensures
            self.achieves(
                old(manager),
                final(manager),
                r,
                p as int,
                p as int,
                old(manager).vectors(q),
                Task::Saturate { p: p as int, s: old(manager).vectors(q) },
            ),
            old(scratch).below(final(scratch)),
            r is Ok ==> old(scratch).same(final(scratch)),
            end_before(self.events@, p as int) ==> r == Ok::<LDDEdge, OutOfMemory>(q),
            is_still(old(manager).nodes(), self.events@, p as int, old(manager).vectors(q)) ==> r
                == Ok::<LDDEdge, OutOfMemory>(q),
        decreases h, 1int, 0int, 4int,
    {
        let ghost n0 = manager.nodes();
        let ghost m0 = *manager;
        let ghost s0 = *scratch;
        let ghost ev = self.events@;
        proof {
            lemma_inner(n0, q);
            if end_before(ev, p as int) {
                assert(is_still(n0, ev, p as int, vectors(n0, q)));
            }
            assert(s0.arcs@.take(arcs_base as int) =~= s0.arcs@);
            assert(s0.frontier@.take(frontier_base as int) =~= s0.frontier@);
            assert(s0.fired@.take(s0.fired@.len() as int) =~= s0.fired@);
        }
        let ghost d = (h - 1) as nat;
        let ghost c = reachable(n0, ev, p as int, p as int, vectors(n0, q));
        let ghost fx = effects(n0, ev);
        let ghost task = Task::Saturate { p: p as int, s: vectors(n0, q) };

        let children = self.saturate_children(manager, scratch, q, p, Ghost(h));
        proof {
            if children is Err && is_still(n0, ev, p as int, vectors(n0, q)) {
                self.lemma_still(m0, *manager, Err(OutOfMemory), p as int, q);
            }
        }
        children?;
        let ghost n1 = manager.nodes();
        let ghost a1 = scratch.arcs@;
        proof {
            lemma_stable(n0, n1, ev);
            lemma_closure_closed(step_rel(n0, ev, p as int, p as int), vectors(n0, q));
            lemma_closure_closed(step_rel(n0, ev, p + 1, p as int), vectors(n0, q));
            lemma_step_weaken(n0, ev, p as int);
            lemma_closure_least(step_rel(n0, ev, p + 1, p as int), vectors(n0, q), c);
            assert(step_rel(n1, ev, p as int, p as int) == step_rel(n0, ev, p as int, p as int));
            lemma_demand_saturate(fx, p as int, vectors(n0, q));
        }

        let mut k: usize = arcs_base;
        while k < scratch.arcs.len()
            invariant
                scratch.arcs@ == a1,
                scratch.fired@ == s0.fired@,
                arcs_base <= k <= a1.len(),
                frontier_base == s0.frontier@.len(),
                scratch.frontier@.len() == frontier_base + k - arcs_base,
                scratch.frontier@.take(frontier_base as int) == s0.frontier@,
                forall|x: int|
                    arcs_base <= x < k ==> scratch.frontier@[frontier_base + x - arcs_base] == (
                    #[trigger] a1[x]).0,
            decreases a1.len() - k,
        {
            let value: u32 = scratch.arcs[k].0;
            scratch.frontier.push(value);
            proof {
                assert(scratch.frontier@.take(frontier_base as int) =~= s0.frontier@);
            }
            k += 1;
        }
        proof {
            let own = arcs_above(scratch.arcs@, arcs_base);
            let pending = scratch.frontier@.skip(frontier_base as int);
            assert forall|x: int| 0 <= x < pending.len() implies has_value(
                own,
                #[trigger] pending[x],
            ) by {
                assert(own[x] == a1[x + arcs_base]);
                assert(scratch.frontier@[frontier_base + (x + arcs_base) - arcs_base] == a1[x
                    + arcs_base].0);
            }
            assert forall|x: int| 0 <= x < own.len() implies pending.contains(
                (#[trigger] own[x]).0,
            ) by {
                assert(own[x] == a1[x + arcs_base]);
                assert(scratch.frontier@[frontier_base + (x + arcs_base) - arcs_base] == a1[x
                    + arcs_base].0);
                assert(pending[x] == own[x].0);
            }
        }

        let mut next: usize = frontier_base;
        while next < scratch.frontier.len()
            invariant
                self.ready(manager, p as int),
                m0 == *old(manager),
                s0 == *old(scratch),
                self.ready(&m0, p as int),
                n0 == m0.nodes(),
                m0.grows_to(manager),
                ev == self.events@,
                h >= 1,
                d == h - 1,
                p + h <= u32::MAX,
                arcs_base == s0.arcs@.len(),
                frontier_base == s0.frontier@.len(),
                arcs_base <= scratch.arcs@.len(),
                frontier_base <= next <= scratch.frontier@.len(),
                scratch.arcs@.take(arcs_base as int) == s0.arcs@,
                scratch.frontier@.take(frontier_base as int) == s0.frontier@,
                scratch.fired@ == s0.fired@,
                saturated(n0, ev, p as int, p as int, c),
                m0.has(q),
                fx == effects(n0, ev),
                task == (Task::Saturate { p: p as int, s: vectors(n0, q) }),
                involves(
                    fx,
                    task,
                    Task::Level {
                        p: p as int,
                        held: arcs_vectors(manager.nodes(), arcs_above(scratch.arcs@, arcs_base)),
                    },
                ),
                vectors(n0, q).subset_of(
                    arcs_vectors(manager.nodes(), arcs_above(scratch.arcs@, arcs_base)),
                ),
                level_ok(
                    manager.nodes(),
                    ev,
                    p as int,
                    d,
                    arcs_above(scratch.arcs@, arcs_base),
                    scratch.frontier@.skip(next as int),
                    c,
                ),
                finished(
                    manager.nodes(),
                    ev,
                    p as int,
                    arcs_above(scratch.arcs@, arcs_base),
                    scratch.frontier@.skip(next as int),
                ),
            decreases
                    missing(
                        h,
                        arcs_vectors(manager.nodes(), arcs_above(scratch.arcs@, arcs_base)),
                    ),
                    scratch.frontier@.len() - next,
        {
            let ghost n2 = manager.nodes();
            let ghost own = arcs_above(scratch.arcs@, arcs_base);
            let ghost f2 = scratch.frontier@;
            let ghost at = next as int;
            let i: u32 = scratch.frontier[next];
            next += 1;
            proof {
                lemma_stable(n0, n2, ev);
                assert(step_rel(n2, ev, p as int, p as int) == step_rel(
                    n0,
                    ev,
                    p as int,
                    p as int,
                ));
                let pending = f2.skip(at);
                let rest = f2.skip(at + 1);
                assert(pending[0] == i);
                assert(has_value(own, pending[0]));
                assert forall|x: int| 0 <= x < rest.len() implies has_value(
                    own,
                    #[trigger] rest[x],
                ) by {
                    assert(rest[x] == pending[x + 1]);
                }
                assert forall|v: u32| #[trigger] pending.contains(v) implies rest.push(i).contains(
                    v,
                ) by {
                    let x = choose|x: int| 0 <= x < pending.len() && pending[x] == v;
                    if x == 0 {
                        assert(rest.push(i)[rest.len() as int] == v);
                    } else {
                        assert(rest.push(i)[x - 1] == v);
                    }
                }
            }
            let result = self.fire_value(
                manager,
                scratch,
                p,
                i,
                arcs_base,
                next,
                Ghost(h),
                Ghost(c),
            );
            proof {
                let before = Task::Level { p: p as int, held: arcs_vectors(n2, own) };
                if result is Err {
                    lemma_lacks(manager.nodes(), fx, task, before);
                    if is_still(n0, ev, p as int, vectors(n0, q)) {
                        self.lemma_still(m0, *manager, Err(OutOfMemory), p as int, q);
                    }
                } else {
                    let own3 = arcs_above(scratch.arcs@, arcs_base);
                    let held3 = arcs_vectors(manager.nodes(), own3);
                    lemma_involves_trans(
                        fx,
                        task,
                        before,
                        Task::Level { p: p as int, held: held3 },
                    );
                }
                assert(scratch.frontier@.take(frontier_base as int) =~= scratch.frontier@.take(
                    at + 1,
                ).take(frontier_base as int));
                assert(f2.take(frontier_base as int) =~= f2.take(at + 1).take(
                    frontier_base as int,
                ));
            }
            result?;
            proof {
                let n3 = manager.nodes();
                let own3 = arcs_above(scratch.arcs@, arcs_base);
                let f3 = scratch.frontier@;
                lemma_stable(n2, n3, ev);
                if own3 == own && f3.skip(at + 1) == f2.skip(at + 1) {
                    lemma_arcs_extends(n2, n3, ev, p as int, d, own);
                    assert(f3.len() == f2.len()) by {
                        assert(f3.skip(at + 1).len() == f2.skip(at + 1).len());
                    }
                }
            }
        }
        scratch.frontier.truncate(frontier_base);
        proof {
            let n4 = manager.nodes();
            let own = arcs_above(scratch.arcs@, arcs_base);
            assert(scratch.frontier@ =~= s0.frontier@);
            lemma_stable(n0, n4, ev);
            lemma_arcs_saturated(n4, ev, p as int, d, own);
            lemma_closure_least(
                step_rel(n0, ev, p as int, p as int),
                vectors(n0, q),
                arcs_vectors(n4, own),
            );
            assert(arcs_vectors(n4, own) =~= c);
        }

        let result = build_node(
            manager,
            scratch,
            arcs_base,
            Ghost(ev),
            Ghost(p as int),
            Ghost(d),
        );
        proof {
            if result is Err {
                lemma_lacks_built(manager.nodes(), fx, task, c);
            } else {
                assert(scratch.arcs@ =~= s0.arcs@);
            }
            if is_still(n0, ev, p as int, vectors(n0, q)) {
                self.lemma_still(m0, *manager, result, p as int, q);
            }
        }
        result
    }

    /// Saturating a set succeeds, and changes nothing, if nothing leads anywhere from it.
    proof fn lemma_still(
        &self,
        before: LDDManager,
        after: LDDManager,
        r: AllocResult<LDDEdge>,
        p: int,
        q: LDDEdge,
    )
        requires
            self.ready(&before, p),
            before.has(q),
            self.achieves(
                &before,
                &after,
                r,
                p,
                p,
                before.vectors(q),
                Task::Saturate { p, s: before.vectors(q) },
            ),
            is_still(before.nodes(), self.events@, p, before.vectors(q)),
        ensures
            r == Ok::<LDDEdge, OutOfMemory>(q),
    {
        lemma_stable(before.nodes(), after.nodes(), self.events@);
        lemma_still_reachable(before.nodes(), self.events@, p, before.vectors(q));
        match r {
            Ok(e) => {
                lemma_canonical(after.nodes(), e, q);
            },
            Err(_) => {
                lemma_demand_still(before.nodes(), self.events@, after.nodes(), p, q);
            },
        }
    }

    /// Implements [`saturate`], using (and restoring) the shared `scratch` buffers.
    ///
    /// If it fails, everything it left in `scratch` is released.
    fn saturate_rec(
        &self,
        manager: &mut LDDManager,
        scratch: &mut Scratch,
        q: LDDEdge,
        p: u32,
        Ghost(h): Ghost<nat>,
    ) -> (r: AllocResult<LDDEdge>)
        requires
            old(manager).wf(),
            is_inner(q) ==> self.ready(old(manager), p as int),
            fits(old(manager).nodes(), q, h),
            p + h <= u32::MAX,
        ensures
            self.achieves(
                old(manager),
                final(manager),
                r,
                p as int,
                p as int,
                old(manager).vectors(q),
                Task::Saturate { p: p as int, s: old(manager).vectors(q) },
            ),
            old(scratch).same(final(scratch)),
            !is_inner(q) ==> r == Ok::<LDDEdge, OutOfMemory>(q),
            end_before(self.events@, p as int) ==> r == Ok::<LDDEdge, OutOfMemory>(q),
            is_still(old(manager).nodes(), self.events@, p as int, old(manager).vectors(q)) ==> r
                == Ok::<LDDEdge, OutOfMemory>(q),
            is_inner(q) ==> saturation_memoised(
                *old(manager),
                *final(manager),
                q,
                p,
                self.epoch,
                r,
            ),
        decreases h, 1int, 0int, 5int,
    {
        let ghost n0 = manager.nodes();
        let ghost ev = self.events@;
        let ghost rel = step_rel(n0, ev, p as int, p as int);
        let ghost m0 = *manager;
        proof {
            if end_before(ev, p as int) {
                assert(is_still(n0, ev, p as int, vectors(n0, q)));
            }
        }

        // Terminals are trivial fixed points of every event.
        match manager.get_node(q) {
            Node::Inner(_) => {},
            Node::Terminal(_) => {
                proof {
                    lemma_terminal_saturated(n0, ev, p as int, q);
                    lemma_closure_fixed(rel, vectors(n0, q));
                }
                return Ok(q);
            },
        }

        let key = LDDKey {
            op: LDDOp::Saturate,
            a: q,
            b: LDDEdge { id: 0 },
            c: LDDEdge { id: 0 },
            epoch: self.epoch,
            pos: p,
        };
        match manager.cache_get(key) {
            Some(r) => {
                proof {
                    if is_still(n0, ev, p as int, vectors(n0, q)) {
                        self.lemma_still(m0, m0, Ok(r), p as int, q);
                    }
                }
                return Ok(r);
            },
            None => {},
        }

        let arcs_base: usize = scratch.arcs.len();
        let frontier_base: usize = scratch.frontier.len();
        let fired_base: usize = scratch.fired.len();
        let result = match self.saturate_node(
            manager,
            scratch,
            q,
            p,
            arcs_base,
            frontier_base,
            Ghost(h),
        ) {
            Ok(result) => result,
            Err(err) => {
                scratch.arcs.truncate(arcs_base);
                scratch.frontier.truncate(frontier_base);
                scratch.fired.truncate(fired_base);
                proof {
                    assert(scratch.arcs@ =~= old(scratch).arcs@);
                    assert(scratch.frontier@ =~= old(scratch).frontier@);
                    assert(scratch.fired@ =~= old(scratch).fired@);
                }
                return Err(err);
            },
        };
        proof {
            lemma_stable(n0, manager.nodes(), ev);
            assert(step_rel(manager.nodes(), ev, p as int, p as int) == rel);
            lemma_closure_closed(rel, vectors(n0, q));
            lemma_closure_fixed(rel, manager.vectors(result));
        }
        manager.cache_add(key, result);

        // `result` is already saturated, so this is a free cache hit for any later node that
        // happens to reach it directly.
        if result != q {
            manager.cache_add(LDDKey { a: result, ..key }, result);
        }
        Ok(result)
    }
}

/// Returns `N*(q)`, the smallest superset of the vectors denoted by `q` that is closed under every
/// event in `events` whose `top` is `>= p`, where `q` is known to sit at position `p`.
///
/// The results are memoised in the apply cache. The entries are keyed on `epoch`, which identifies
/// `events`: calls with the same `epoch` share their cached results, so it has to differ whenever the
/// events differ.
///
/// It fails if the store is full and one of the sets that have to be built on the way has no edge.
pub fn saturate(
    manager: &mut LDDManager,
    q: LDDEdge,
    p: u32,
    events: &[SaturationEvent],
    epoch: u32,
) -> (r: AllocResult<LDDEdge>)
    requires
        old(manager).wf(),
        old(manager).has(q),
        forall|x: Seq<u32>| #[trigger]
            old(manager).vectors(q).contains(x) ==> p + x.len() <= u32::MAX,
        is_inner(q) ==> events_known(old(manager).nodes(), events@),
        is_inner(q) ==> events_ok(old(manager).nodes(), events@, p as int),
        is_inner(q) && old(manager).epochs().contains_key(epoch) ==> old(manager).epochs()[epoch]
            == events@,
    ensures
        final(manager).wf(),
        extends(old(manager).nodes(), final(manager).nodes()),
        final(manager).capacity() == old(manager).capacity(),
        final(manager).epochs() == if is_inner(q) {
            old(manager).epochs().insert(epoch, events@)
        } else {
            old(manager).epochs()
        },
        match r {
            Ok(e) => {
                &&& final(manager).has(e)
                &&& final(manager).vectors(e) == reachable(
                    old(manager).nodes(),
                    events@,
                    p as int,
                    p as int,
                    old(manager).vectors(q),
                )
            },
            Err(_) => final(manager).is_full() && lacks(
                final(manager).nodes(),
                effects(old(manager).nodes(), events@),
                Task::Saturate { p: p as int, s: old(manager).vectors(q) },
            ),
        },
        !is_inner(q) ==> r == Ok::<LDDEdge, OutOfMemory>(q),
        (forall|i: int| 0 <= i < events@.len() ==> (#[trigger] events@[i]).top < p) ==> r == Ok::<
            LDDEdge,
            OutOfMemory,
        >(q),
        is_still(old(manager).nodes(), events@, p as int, old(manager).vectors(q)) ==> r == Ok::<
            LDDEdge,
            OutOfMemory,
        >(q),
        is_inner(q) ==> saturation_memoised(*old(manager), *final(manager), q, p, epoch, r),
{
    manager.register_events(epoch, Ghost(events@), Ghost(is_inner(q)));
    let saturation = Saturation { events, epoch };
    let mut scratch = Scratch { arcs: Vec::new(), frontier: Vec::new(), fired: Vec::new() };
    let ghost h = height(manager.nodes(), q);
    proof {
        if q != empty() {
            let x = lemma_nonempty(manager.nodes(), q);
            assert(old(manager).vectors(q).contains(x));
            lemma_member_len(manager.nodes(), q, x);
        }
        if end_before(events@, p as int) {
            assert(is_still(manager.nodes(), events@, p as int, manager.vectors(q)));
        }
    }
    let result = saturation.saturate_rec(manager, &mut scratch, q, p, Ghost(h));
    assert(scratch.arcs@.len() == 0 && scratch.frontier@.len() == 0 && scratch.fired@.len() == 0);
    result
}

} // verus!
