//! Construction of nodes, and the union of sets.

use super::manager::{memoised, LDDKey, LDDManager, LDDOp, Node};
use super::semantics::{
    above, absent, empty, fits, height, is_inner, is_ldd, lemma_above, lemma_absent_node,
    lemma_extends, lemma_inner, lemma_member_len, lemma_nonempty, lemma_terminals, node_of,
    prefixed, unit, unmade, valid, vectors, LDDEdge, LDDNode,
};
use crate::util::AllocResult;
use vstd::prelude::*;

verus! {

/// The set fits a length if all its vectors have that length.
pub proof fn lemma_fits(nodes: Seq<LDDNode>, e: LDDEdge, h: nat)
    requires
        is_ldd(nodes),
        valid(nodes, e),
        forall|x: Seq<u32>| #[trigger] vectors(nodes, e).contains(x) ==> x.len() == h,
    ensures
        fits(nodes, e, h),
{
    if e != empty() {
        let x = lemma_nonempty(nodes, e);
        assert(vectors(nodes, e).contains(x));
        lemma_member_len(nodes, e, x);
    }
}

/// All vectors of a set that fits a length have that length.
pub proof fn lemma_fits_len(nodes: Seq<LDDNode>, e: LDDEdge, h: nat)
    requires
        is_ldd(nodes),
        fits(nodes, e, h),
    ensures
        forall|x: Seq<u32>| #[trigger] vectors(nodes, e).contains(x) ==> x.len() == h,
{
    assert forall|x: Seq<u32>| #[trigger] vectors(nodes, e).contains(x) implies x.len() == h by {
        lemma_member_len(nodes, e, x);
    }
}

/// Returns the set of the vectors that start with `value` and continue with a vector of `down`, and
/// of the vectors of `right`.
pub fn make_node(manager: &mut LDDManager, value: u32, down: LDDEdge, right: LDDEdge) -> (r:
    AllocResult<LDDEdge>)
    requires
        old(manager).wf(),
        old(manager).has(down),
        old(manager).has(right),
        down == empty() || (right != unit() && fits(
            old(manager).nodes(),
            right,
            height(old(manager).nodes(), down) + 1,
        ) && above(old(manager).nodes(), right, value)),
    ensures
        final(manager).wf(),
        old(manager).grows_to(final(manager)),
        match r {
            Ok(e) => {
                &&& final(manager).has(e)
                &&& final(manager).vectors(e) == prefixed(value, old(manager).vectors(down)).union(
                    old(manager).vectors(right),
                )
            },
            Err(_) => true,
        },
        final(manager).nodes() == if r is Err || down == empty() || old(manager).nodes().contains(
            (LDDNode { value, down, right }),
        ) {
            old(manager).nodes()
        } else {
            old(manager).nodes().push((LDDNode { value, down, right }))
        },
        final(manager).cached() == old(manager).cached(),
        r is Err <==> down != empty() && old(manager).is_full() && !old(manager).nodes().contains(
            (LDDNode { value, down, right }),
        ),
{
    if down.id == 0 {
        proof {
            lemma_terminals(manager.nodes());
            assert(prefixed(value, manager.vectors(down)).union(manager.vectors(right))
                =~= manager.vectors(right));
        }
        return Ok(right);
    }
    match manager.get_or_insert(LDDNode { value, down, right }) {
        Ok(e) => {
            proof {
                lemma_extends(old(manager).nodes(), manager.nodes());
                lemma_inner(manager.nodes(), e);
            }
            Ok(e)
        },
        Err(err) => Err(err),
    }
}

/// The smallest value of a union, its continuations, and the vectors that start with greater values.
pub open spec fn union_parts(nodes: Seq<LDDNode>, a: LDDEdge, b: LDDEdge) -> (
    u32,
    Set<Seq<u32>>,
    Set<Seq<u32>>,
) {
    let m = node_of(nodes, a);
    let n = node_of(nodes, b);
    if m.value < n.value {
        (m.value, vectors(nodes, m.down), vectors(nodes, m.right).union(vectors(nodes, b)))
    } else if m.value > n.value {
        (n.value, vectors(nodes, n.down), vectors(nodes, a).union(vectors(nodes, n.right)))
    } else {
        (
            m.value,
            vectors(nodes, m.down).union(vectors(nodes, n.down)),
            vectors(nodes, m.right).union(vectors(nodes, n.right)),
        )
    }
}

/// A union has no edge if a part of its node has none, or if the node is missing.
proof fn lemma_union_absent(nodes: Seq<LDDNode>, later: Seq<LDDNode>, a: LDDEdge, b: LDDEdge)
    requires
        is_ldd(nodes),
        is_ldd(later),
        valid(nodes, a),
        valid(nodes, b),
        is_inner(a),
        is_inner(b),
        ({
            let (value, s, t) = union_parts(nodes, a, b);
            absent(later, s) || absent(later, t) || unmade(later, value, s, t)
        }),
    ensures
        absent(later, vectors(nodes, a).union(vectors(nodes, b))),
{
    let m = node_of(nodes, a);
    let n = node_of(nodes, b);
    lemma_inner(nodes, a);
    lemma_inner(nodes, b);
    let (value, s, t) = union_parts(nodes, a, b);
    let w = if m.value <= n.value {
        lemma_nonempty(nodes, m.down)
    } else {
        lemma_nonempty(nodes, n.down)
    };
    if m.value <= n.value {
        assert(vectors(nodes, m.down).contains(w));
    } else {
        assert(vectors(nodes, n.down).contains(w));
    }
    assert(s.contains(w));
    lemma_absent_node(later, value, s, t, w);
    assert(prefixed(value, s).union(t) =~= vectors(nodes, a).union(vectors(nodes, b)));
}

/// The key of the union of `a` and `b`.
pub open spec fn union_key(a: LDDEdge, b: LDDEdge) -> LDDKey {
    LDDKey { op: LDDOp::Union, a, b, c: empty(), epoch: 0, pos: 0 }
}

/// The union of the sets `a` and `b`.
pub fn apply_union(manager: &mut LDDManager, a: LDDEdge, b: LDDEdge) -> (r: AllocResult<LDDEdge>)
    requires
        old(manager).wf(),
        old(manager).has(a),
        old(manager).has(b),
        a == empty() || b == empty() || height(old(manager).nodes(), a) == height(
            old(manager).nodes(),
            b,
        ),
    ensures
        final(manager).wf(),
        old(manager).grows_to(final(manager)),
        match r {
            Ok(e) => {
                &&& final(manager).has(e)
                &&& final(manager).vectors(e) == old(manager).vectors(a).union(
                    old(manager).vectors(b),
                )
            },
            Err(_) => final(manager).is_full() && absent(
                final(manager).nodes(),
                old(manager).vectors(a).union(old(manager).vectors(b)),
            ),
        },
        is_inner(a) && is_inner(b) && a != b ==> memoised(
            *old(manager),
            *final(manager),
            union_key(a, b),
            r,
        ),
    decreases a.id + b.id,
{
    let ghost m0 = *manager;
    proof {
        lemma_terminals(m0.nodes());
    }
    if a == b || b.id == 0 {
        assert(m0.vectors(a).union(m0.vectors(b)) =~= m0.vectors(a));
        return Ok(a);
    }
    if a.id == 0 {
        assert(m0.vectors(a).union(m0.vectors(b)) =~= m0.vectors(b));
        return Ok(b);
    }
    let (m, n) = match (manager.get_node(a), manager.get_node(b)) {
        (Node::Inner(m), Node::Inner(n)) => (m, n),
        _ => {
            // Only the empty vector has the length 0.
            proof {
                if is_inner(a) {
                    lemma_inner(m0.nodes(), a);
                }
                if is_inner(b) {
                    lemma_inner(m0.nodes(), b);
                }
            }
            return Ok(a);
        },
    };

    let key = LDDKey { op: LDDOp::Union, a, b, c: LDDEdge { id: 0 }, epoch: 0, pos: 0 };
    match manager.cache_get(key) {
        Some(r) => return Ok(r),
        None => {},
    }

    proof {
        lemma_inner(m0.nodes(), a);
        lemma_inner(m0.nodes(), b);
        lemma_terminals(m0.nodes());
    }
    let ghost h = height(m0.nodes(), m.down);
    // The smallest value, its continuations, and what is to the right of it.
    let (value, down, right) = if m.value < n.value {
        let right = match apply_union(manager, m.right, b) {
            Ok(e) => e,
            Err(err) => {
                proof {
                    lemma_union_absent(m0.nodes(), manager.nodes(), a, b);
                }
                return Err(err);
            },
        };
        (m.value, m.down, right)
    } else if m.value > n.value {
        let right = match apply_union(manager, a, n.right) {
            Ok(e) => e,
            Err(err) => {
                proof {
                    lemma_union_absent(m0.nodes(), manager.nodes(), a, b);
                }
                return Err(err);
            },
        };
        (n.value, n.down, right)
    } else {
        let down = match apply_union(manager, m.down, n.down) {
            Ok(e) => e,
            Err(err) => {
                proof {
                    lemma_union_absent(m0.nodes(), manager.nodes(), a, b);
                }
                return Err(err);
            },
        };
        let ghost m1 = *manager;
        proof {
            lemma_extends(m0.nodes(), m1.nodes());
        }
        let right = match apply_union(manager, m.right, n.right) {
            Ok(e) => e,
            Err(err) => {
                proof {
                    lemma_union_absent(m0.nodes(), manager.nodes(), a, b);
                }
                return Err(err);
            },
        };
        proof {
            lemma_extends(m1.nodes(), manager.nodes());
        }
        (m.value, down, right)
    };
    let ghost m2 = *manager;
    proof {
        lemma_extends(m0.nodes(), m2.nodes());
        lemma_fits_len(m0.nodes(), m.right, h + 1);
        lemma_fits_len(m0.nodes(), n.right, h + 1);
        lemma_fits_len(m0.nodes(), m.down, h);
        lemma_fits_len(m0.nodes(), n.down, h);
        lemma_fits_len(m0.nodes(), a, h + 1);
        lemma_fits_len(m0.nodes(), b, h + 1);
        lemma_fits(m2.nodes(), right, h + 1);
        lemma_fits(m2.nodes(), down, h);
        lemma_above(m2.nodes(), right, value);
    }
    let r = match make_node(manager, value, down, right) {
        Ok(e) => e,
        Err(err) => {
            proof {
                assert(unmade(
                    manager.nodes(),
                    value,
                    vectors(manager.nodes(), down),
                    vectors(manager.nodes(), right),
                ));
                lemma_union_absent(m0.nodes(), manager.nodes(), a, b);
            }
            return Err(err);
        },
    };
    proof {
        lemma_extends(m2.nodes(), manager.nodes());
        assert(manager.vectors(r) =~= m0.vectors(a).union(m0.vectors(b)));
    }
    manager.cache_add(key, r);
    Ok(r)
}

} // verus!
