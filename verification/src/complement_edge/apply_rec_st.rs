//! Recursive apply algorithms.

use super::canonicity::{
    absent, bin_fn, combined_fn, denotes, ite_fn, lacks_quantified, lacks_substituted,
    lemma_absent_bin, lemma_absent_combined, lemma_absent_ite, lemma_absent_ite_as_bin,
    lemma_absent_negated, lemma_absent_restrict, lemma_absent_same, lemma_lacks_quantified,
    lemma_lacks_substituted, part_of, quant_fn, restrict_fn, subst_fn, undecided,
};
use super::edge::{BCDDOp, Edge, EdgeTag, InnerNode, LevelNo, Node};
use super::growth::{
    adds_parts, lemma_adds_bin, lemma_adds_ite, lemma_adds_ite_as_bin, lemma_adds_none,
    lemma_adds_restrict,
};
use super::manager::{
    bin_memoised, flipped_result, is_registered, ite_key, memoised, quant_key, restrict_key,
    subst_key, BCDDKey, Manager,
};
use super::operators::{
    cube_assign, is_bin, is_cube, is_ite, is_quantified, is_quantifier, is_restricted,
    is_substituted, lemma_cube_below, lemma_cube_extends, lemma_quant_trivial, lemma_quantify_above,
    lemma_quantify_decision, lemma_quantify_extends, lemma_quantify_skip, lemma_quantify_top,
    lemma_represents_extends, lemma_subst_extends, lemma_var_set_below, lemma_var_set_extends,
    popped, quant_trivial, quantify, represents, subst_env, subst_valid, var_set,
};
use super::semantics::{
    assign, else_of, eval, extends, is_diagram, is_inner, lemma_cofactors, lemma_eval_agree,
    lemma_eval_flipped, lemma_extends, lemma_negation, level_of, node_of, then_of, valid,
};
use super::{
    cofactors_at, collect_cofactors, get_terminal, not, reduce, set_pop, terminal_and,
    terminal_xor, NodesOrDone,
};
use crate::util::{AllocResult, OutOfMemory};
use vstd::prelude::*;

verus! {

/// The smaller of two levels.
pub(crate) fn min_level(a: LevelNo, b: LevelNo) -> (r: LevelNo)
    ensures
        r == if a < b {
            a
        } else {
            b
        },
{
    if a < b {
        a
    } else {
        b
    }
}

/// Recursively applies the binary operator `op` (`And` or `Xor`) to `f` and `g`.
#[verifier::rlimit(40)]
pub(crate) fn apply_bin(manager: &mut Manager, op: BCDDOp, f: Edge, g: Edge) -> (r: AllocResult<
    Edge,
>)
    requires
        old(manager).wf(),
        old(manager).has(f),
        old(manager).has(g),
        op == BCDDOp::And || op == BCDDOp::Xor,
    ensures
        final(manager).wf(),
        old(manager).grows_to(final(manager)),
        match r {
            Ok(h) => {
                let nodes = final(manager).nodes();
                &&& is_bin(nodes, op, f, g, h)
                &&& level_of(nodes, h) >= level_of(nodes, f) || level_of(nodes, h) >= level_of(
                    nodes,
                    g,
                )
            },
            Err(_) => {
                let nodes = final(manager).nodes();
                &&& final(manager).is_full()
                &&& absent(nodes, bin_fn(nodes, op, f, g))
            },
        },
        bin_memoised(*old(manager), *final(manager), op, f, g, false, r),
        adds_parts(
            old(manager).nodes(),
            final(manager).nodes(),
            bin_fn(old(manager).nodes(), op, f, g),
        ),
    decreases f.node + g.node,
{
    proof {
        lemma_adds_none(manager.nodes());
    }
    let terminal = if op == BCDDOp::And {
        terminal_and(manager, f, g)
    } else {
        terminal_xor(manager, f, g)
    };
    // Both operators are commutative, hence the operands are ordered to have a unique
    // representation of the set `{f, g}` in the apply cache.
    let (f, fnode, g, gnode) = match terminal {
        NodesOrDone::Nodes(fnode, gnode) => if f.node < g.node {
            (f, fnode, g, gnode)
        } else {
            (g, gnode, f, fnode)
        },
        NodesOrDone::Done(h) => return Ok(h),
    };

    let key = BCDDKey { op, f, g, h: get_terminal(true), num: 0 };
    match manager.cache_get(key) {
        Some(h) => return Ok(h),
        None => {},
    }

    let level: LevelNo = min_level(fnode.level, gnode.level);
    let (ft, fe) = cofactors_at(manager, f, fnode, level);
    let (gt, ge) = cofactors_at(manager, g, gnode, level);
    let ghost m0 = *manager;

    let t = match apply_bin(manager, op, ft, gt) {
        Ok(t) => t,
        Err(err) => {
            proof {
                lemma_absent_bin(
                    m0.nodes(),
                    manager.nodes(),
                    m0.levels(),
                    op,
                    level,
                    f,
                    ft,
                    fe,
                    g,
                    gt,
                    ge,
                );
                lemma_adds_bin(
                    m0.nodes(),
                    manager.nodes(),
                    manager.nodes(),
                    manager.nodes(),
                    m0.levels(),
                    op,
                    level,
                    f,
                    ft,
                    fe,
                    g,
                    gt,
                    ge,
                    f,
                    f,
                );
            }
            return Err(err);
        },
    };
    let ghost m1 = *manager;
    proof {
        lemma_extends(m0.nodes(), m1.nodes(), m0.levels());
    }
    let e = match apply_bin(manager, op, fe, ge) {
        Ok(e) => e,
        Err(err) => {
            proof {
                lemma_absent_bin(
                    m0.nodes(),
                    manager.nodes(),
                    m0.levels(),
                    op,
                    level,
                    f,
                    ft,
                    fe,
                    g,
                    gt,
                    ge,
                );
                lemma_adds_bin(
                    m0.nodes(),
                    m1.nodes(),
                    manager.nodes(),
                    manager.nodes(),
                    m0.levels(),
                    op,
                    level,
                    f,
                    ft,
                    fe,
                    g,
                    gt,
                    ge,
                    f,
                    f,
                );
            }
            return Err(err);
        },
    };
    let ghost m2 = *manager;
    proof {
        lemma_extends(m1.nodes(), m2.nodes(), m0.levels());
    }
    let h = match reduce(manager, level, t, e) {
        Ok(h) => h,
        Err(err) => {
            proof {
                let nodes = manager.nodes();
                assert(denotes(nodes, t, bin_fn(nodes, op, ft, gt)));
                assert(denotes(nodes, e, bin_fn(nodes, op, fe, ge)));
                lemma_absent_bin(
                    m0.nodes(),
                    manager.nodes(),
                    m0.levels(),
                    op,
                    level,
                    f,
                    ft,
                    fe,
                    g,
                    gt,
                    ge,
                );
                lemma_adds_bin(
                    m0.nodes(),
                    m1.nodes(),
                    m2.nodes(),
                    manager.nodes(),
                    m0.levels(),
                    op,
                    level,
                    f,
                    ft,
                    fe,
                    g,
                    gt,
                    ge,
                    f,
                    f,
                );
            }
            return Err(err);
        },
    };
    proof {
        assert(is_bin(m2.nodes(), op, ft, gt, t));
        assert(is_bin(m2.nodes(), op, fe, ge, e));
        lemma_adds_bin(
            m0.nodes(),
            m1.nodes(),
            m2.nodes(),
            manager.nodes(),
            m0.levels(),
            op,
            level,
            f,
            ft,
            fe,
            g,
            gt,
            ge,
            t,
            e,
        );
        lemma_extends(m2.nodes(), manager.nodes(), m0.levels());
    }
    manager.cache_add(key, h);
    Ok(h)
}

/// The conjunction of `f` and `g`.
pub(crate) fn apply_and(manager: &mut Manager, f: Edge, g: Edge) -> (r: AllocResult<Edge>)
    requires
        old(manager).wf(),
        old(manager).has(f),
        old(manager).has(g),
    ensures
        final(manager).wf(),
        old(manager).grows_to(final(manager)),
        match r {
            Ok(h) => {
                let nodes = final(manager).nodes();
                &&& is_bin(nodes, BCDDOp::And, f, g, h)
                &&& level_of(nodes, h) >= level_of(nodes, f) || level_of(nodes, h) >= level_of(
                    nodes,
                    g,
                )
            },
            Err(_) => {
                let nodes = final(manager).nodes();
                &&& final(manager).is_full()
                &&& absent(nodes, bin_fn(nodes, BCDDOp::And, f, g))
            },
        },
        bin_memoised(*old(manager), *final(manager), BCDDOp::And, f, g, false, r),
        adds_parts(
            old(manager).nodes(),
            final(manager).nodes(),
            bin_fn(old(manager).nodes(), BCDDOp::And, f, g),
        ),
{
    apply_bin(manager, BCDDOp::And, f, g)
}

/// Negates the result of an operation.
pub(crate) fn negate(r: AllocResult<Edge>) -> (n: AllocResult<Edge>)
    ensures
        match r {
            Ok(h) => n == Ok::<Edge, OutOfMemory>(h.flipped(true)),
            Err(err) => n == Err::<Edge, OutOfMemory>(err),
        },
{
    match r {
        Ok(h) => Ok(not(h)),
        Err(err) => Err(err),
    }
}

/// Recursively applies the if-then-else operator (`if f { g } else { h }`).
pub(crate) fn apply_ite(manager: &mut Manager, f: Edge, g: Edge, h: Edge) -> (r: AllocResult<Edge>)
    requires
        old(manager).wf(),
        old(manager).has(f),
        old(manager).has(g),
        old(manager).has(h),
    ensures
        final(manager).wf(),
        old(manager).grows_to(final(manager)),
        match r {
            Ok(r) => {
                let nodes = final(manager).nodes();
                &&& is_ite(nodes, f, g, h, r)
                &&& level_of(nodes, r) >= level_of(nodes, f) || level_of(nodes, r) >= level_of(
                    nodes,
                    g,
                ) || level_of(nodes, r) >= level_of(nodes, h)
            },
            Err(_) => {
                let nodes = final(manager).nodes();
                &&& final(manager).is_full()
                &&& absent(nodes, ite_fn(nodes, f, g, h))
            },
        },
        is_inner(f) && is_inner(g) && is_inner(h) && f.node != g.node && f.node != h.node && g.node
            != h.node ==> memoised(*old(manager), *final(manager), ite_key(f, g, h), r),
        adds_parts(
            old(manager).nodes(),
            final(manager).nodes(),
            ite_fn(old(manager).nodes(), f, g, h),
        ),
    decreases f.node + g.node + h.node,
{
    let ghost n0 = manager.nodes();
    proof {
        lemma_adds_none(n0);
        lemma_negation(n0);
    }
    // Terminal cases
    if g.node == h.node {
        return if g.tag == h.tag {
            Ok(g)
        } else {
            // f <-> g
            let r = negate(apply_bin(manager, BCDDOp::Xor, f, g));
            proof {
                lemma_negation(manager.nodes());
                assert(h == g.flipped(true));
                if r is Err {
                    lemma_absent_ite_as_bin(
                        manager.nodes(),
                        f,
                        g,
                        h,
                        BCDDOp::Xor,
                        f,
                        g,
                        true,
                    );
                }
                lemma_adds_ite_as_bin(
                    n0,
                    manager.nodes(),
                    f,
                    g,
                    h,
                    BCDDOp::Xor,
                    f,
                    g,
                    true,
                );
            }
            r
        };
    }
    if f.node == g.node {
        return if f.tag == g.tag {
            // f or h
            let r = negate(apply_and(manager, not(f), not(h)));
            proof {
                lemma_negation(manager.nodes());
                if r is Err {
                    lemma_absent_ite_as_bin(
                        manager.nodes(),
                        f,
                        g,
                        h,
                        BCDDOp::And,
                        f.flipped(true),
                        h.flipped(true),
                        true,
                    );
                }
                lemma_adds_ite_as_bin(
                    n0,
                    manager.nodes(),
                    f,
                    g,
                    h,
                    BCDDOp::And,
                    f.flipped(true),
                    h.flipped(true),
                    true,
                );
            }
            r
        } else {
            // f < h
            let r = apply_and(manager, not(f), h);
            proof {
                lemma_negation(manager.nodes());
                assert(g == f.flipped(true));
                if r is Err {
                    lemma_absent_ite_as_bin(
                        manager.nodes(),
                        f,
                        g,
                        h,
                        BCDDOp::And,
                        f.flipped(true),
                        h,
                        false,
                    );
                }
                lemma_adds_ite_as_bin(
                    n0,
                    manager.nodes(),
                    f,
                    g,
                    h,
                    BCDDOp::And,
                    f.flipped(true),
                    h,
                    false,
                );
            }
            r
        };
    }
    if f.node == h.node {
        return if f.tag == h.tag {
            let r = apply_and(manager, f, g);
            proof {
                if r is Err {
                    lemma_absent_ite_as_bin(
                        manager.nodes(),
                        f,
                        g,
                        h,
                        BCDDOp::And,
                        f,
                        g,
                        false,
                    );
                }
                lemma_adds_ite_as_bin(
                    n0,
                    manager.nodes(),
                    f,
                    g,
                    h,
                    BCDDOp::And,
                    f,
                    g,
                    false,
                );
            }
            r
        } else {
            // f -> g
            let r = negate(apply_and(manager, f, not(g)));
            proof {
                lemma_negation(manager.nodes());
                assert(h == f.flipped(true));
                if r is Err {
                    lemma_absent_ite_as_bin(
                        manager.nodes(),
                        f,
                        g,
                        h,
                        BCDDOp::And,
                        f,
                        g.flipped(true),
                        true,
                    );
                }
                lemma_adds_ite_as_bin(
                    n0,
                    manager.nodes(),
                    f,
                    g,
                    h,
                    BCDDOp::And,
                    f,
                    g.flipped(true),
                    true,
                );
            }
            r
        };
    }
    let fnode = match manager.get_node(f) {
        Node::Inner(n) => n,
        Node::Terminal => return Ok(
            if f.tag == EdgeTag::Regular {
                g
            } else {
                h
            },
        ),
    };
    let (gnode, hnode) = match (manager.get_node(g), manager.get_node(h)) {
        (Node::Inner(gnode), Node::Inner(hnode)) => (gnode, hnode),
        (Node::Terminal, _) => {
            return if g.tag == EdgeTag::Regular {
                // f or h
                let r = negate(apply_and(manager, not(f), not(h)));
                proof {
                    lemma_negation(manager.nodes());
                    if r is Err {
                        lemma_absent_ite_as_bin(
                            manager.nodes(),
                            f,
                            g,
                            h,
                            BCDDOp::And,
                            f.flipped(true),
                            h.flipped(true),
                            true,
                        );
                    }
                    lemma_adds_ite_as_bin(
                        n0,
                        manager.nodes(),
                        f,
                        g,
                        h,
                        BCDDOp::And,
                        f.flipped(true),
                        h.flipped(true),
                        true,
                    );
                }
                r
            } else {
                // f < h
                let r = apply_and(manager, not(f), h);
                proof {
                    lemma_negation(manager.nodes());
                    if r is Err {
                        lemma_absent_ite_as_bin(
                            manager.nodes(),
                            f,
                            g,
                            h,
                            BCDDOp::And,
                            f.flipped(true),
                            h,
                            false,
                        );
                    }
                    lemma_adds_ite_as_bin(
                        n0,
                        manager.nodes(),
                        f,
                        g,
                        h,
                        BCDDOp::And,
                        f.flipped(true),
                        h,
                        false,
                    );
                }
                r
            };
        },
        (Node::Inner(_), Node::Terminal) => {
            return if h.tag == EdgeTag::Regular {
                // f -> g
                let r = negate(apply_and(manager, f, not(g)));
                proof {
                    lemma_negation(manager.nodes());
                    if r is Err {
                        lemma_absent_ite_as_bin(
                            manager.nodes(),
                            f,
                            g,
                            h,
                            BCDDOp::And,
                            f,
                            g.flipped(true),
                            true,
                        );
                    }
                    lemma_adds_ite_as_bin(
                        n0,
                        manager.nodes(),
                        f,
                        g,
                        h,
                        BCDDOp::And,
                        f,
                        g.flipped(true),
                        true,
                    );
                }
                r
            } else {
                let r = apply_and(manager, f, g);
                proof {
                    if r is Err {
                        lemma_absent_ite_as_bin(
                            manager.nodes(),
                            f,
                            g,
                            h,
                            BCDDOp::And,
                            f,
                            g,
                            false,
                        );
                    }
                    lemma_adds_ite_as_bin(
                        n0,
                        manager.nodes(),
                        f,
                        g,
                        h,
                        BCDDOp::And,
                        f,
                        g,
                        false,
                    );
                }
                r
            };
        },
    };

    let key = BCDDKey { op: BCDDOp::Ite, f, g, h, num: 0 };
    match manager.cache_get(key) {
        Some(r) => return Ok(r),
        None => {},
    }

    let level: LevelNo = min_level(min_level(fnode.level, gnode.level), hnode.level);
    let (ft, fe) = cofactors_at(manager, f, fnode, level);
    let (gt, ge) = cofactors_at(manager, g, gnode, level);
    let (ht, he) = cofactors_at(manager, h, hnode, level);
    let ghost m0 = *manager;

    let t = match apply_ite(manager, ft, gt, ht) {
        Ok(t) => t,
        Err(err) => {
            proof {
                lemma_absent_ite(
                    m0.nodes(),
                    manager.nodes(),
                    m0.levels(),
                    level,
                    f,
                    ft,
                    fe,
                    g,
                    gt,
                    ge,
                    h,
                    ht,
                    he,
                );
                lemma_adds_ite(
                    m0.nodes(),
                    manager.nodes(),
                    manager.nodes(),
                    manager.nodes(),
                    m0.levels(),
                    level,
                    f,
                    ft,
                    fe,
                    g,
                    gt,
                    ge,
                    h,
                    ht,
                    he,
                    f,
                    f,
                );
            }
            return Err(err);
        },
    };
    let ghost m1 = *manager;
    proof {
        lemma_extends(m0.nodes(), m1.nodes(), m0.levels());
    }
    let e = match apply_ite(manager, fe, ge, he) {
        Ok(e) => e,
        Err(err) => {
            proof {
                lemma_absent_ite(
                    m0.nodes(),
                    manager.nodes(),
                    m0.levels(),
                    level,
                    f,
                    ft,
                    fe,
                    g,
                    gt,
                    ge,
                    h,
                    ht,
                    he,
                );
                lemma_adds_ite(
                    m0.nodes(),
                    m1.nodes(),
                    manager.nodes(),
                    manager.nodes(),
                    m0.levels(),
                    level,
                    f,
                    ft,
                    fe,
                    g,
                    gt,
                    ge,
                    h,
                    ht,
                    he,
                    f,
                    f,
                );
            }
            return Err(err);
        },
    };
    let ghost m2 = *manager;
    proof {
        lemma_extends(m1.nodes(), m2.nodes(), m0.levels());
    }
    let r = match reduce(manager, level, t, e) {
        Ok(r) => r,
        Err(err) => {
            proof {
                let nodes = manager.nodes();
                assert(denotes(nodes, t, ite_fn(nodes, ft, gt, ht)));
                assert(denotes(nodes, e, ite_fn(nodes, fe, ge, he)));
                lemma_absent_ite(
                    m0.nodes(),
                    manager.nodes(),
                    m0.levels(),
                    level,
                    f,
                    ft,
                    fe,
                    g,
                    gt,
                    ge,
                    h,
                    ht,
                    he,
                );
                lemma_adds_ite(
                    m0.nodes(),
                    m1.nodes(),
                    m2.nodes(),
                    manager.nodes(),
                    m0.levels(),
                    level,
                    f,
                    ft,
                    fe,
                    g,
                    gt,
                    ge,
                    h,
                    ht,
                    he,
                    f,
                    f,
                );
            }
            return Err(err);
        },
    };
    proof {
        assert(is_ite(m2.nodes(), ft, gt, ht, t));
        assert(is_ite(m2.nodes(), fe, ge, he, e));
        lemma_adds_ite(
            m0.nodes(),
            m1.nodes(),
            m2.nodes(),
            manager.nodes(),
            m0.levels(),
            level,
            f,
            ft,
            fe,
            g,
            gt,
            ge,
            h,
            ht,
            he,
            t,
            e,
        );
        lemma_extends(m2.nodes(), manager.nodes(), m0.levels());
    }
    manager.cache_add(key, r);
    Ok(r)
}

/// Recursively substitutes `subst[l]` for the variable at each level `l`, where `subst` represents
/// the substitution registered as `cache_id`.
pub(crate) fn substitute(manager: &mut Manager, f: Edge, subst: &[Edge], cache_id: u32) -> (r:
    AllocResult<Edge>)
    requires
        old(manager).wf(),
        old(manager).has(f),
        is_inner(f) && level_of(old(manager).nodes(), f) < subst@.len() ==> is_registered(
            *old(manager),
            subst@,
            cache_id,
        ),
    ensures
        final(manager).wf(),
        old(manager).grows_to(final(manager)),
        match r {
            Ok(r) => final(manager).has(r) && (is_registered(*old(manager), subst@, cache_id)
                ==> is_substituted(
                final(manager).nodes(),
                old(manager).substitutions()[cache_id],
                f,
                r,
            )),
            Err(_) => final(manager).is_full() && lacks_substituted(
                final(manager).nodes(),
                old(manager).substitutions()[cache_id],
                f,
            ),
        },
        level_of(old(manager).nodes(), f) >= subst@.len() ==> r == Ok::<Edge, OutOfMemory>(f),
        !is_inner(f) ==> r == Ok::<Edge, OutOfMemory>(f),
        is_inner(f) && level_of(old(manager).nodes(), f) < subst@.len() ==> memoised(
            *old(manager),
            *final(manager),
            subst_key(f, cache_id),
            r,
        ),
    decreases f.node,
{
    let ghost m = manager.substitutions()[cache_id];
    let node = match manager.get_node(f) {
        Node::Inner(n) => n,
        Node::Terminal => return Ok(f),
    };
    let level: LevelNo = node.level;
    if level as usize >= subst.len() {
        proof {
            if is_registered(*manager, subst@, cache_id) {
                lemma_subst_below(manager.nodes(), manager.levels(), subst@, m, f);
            }
        }
        return Ok(f);
    }

    let key = BCDDKey {
        op: BCDDOp::Substitute,
        f,
        g: get_terminal(true),
        h: get_terminal(true),
        num: cache_id,
    };
    match manager.cache_get(key) {
        Some(h) => return Ok(h),
        None => {},
    }

    let ghost m0 = *manager;
    proof {
        lemma_cofactors(m0.nodes(), m0.levels(), f);
    }
    let (ft, fe) = collect_cofactors(f.tag, node);
    let t = match substitute(manager, ft, subst, cache_id) {
        Ok(t) => t,
        Err(err) => {
            proof {
                lemma_lacks_substituted(m0.nodes(), manager.nodes(), m0.levels(), m, f);
            }
            return Err(err);
        },
    };
    let ghost m1 = *manager;
    proof {
        lemma_extends(m0.nodes(), m1.nodes(), m0.levels());
        lemma_represents_extends(m0.nodes(), m1.nodes(), m0.levels(), subst@, m);
    }
    let e = match substitute(manager, fe, subst, cache_id) {
        Ok(e) => e,
        Err(err) => {
            proof {
                lemma_lacks_substituted(m0.nodes(), manager.nodes(), m0.levels(), m, f);
            }
            return Err(err);
        },
    };
    let ghost m2 = *manager;
    proof {
        lemma_extends(m1.nodes(), m2.nodes(), m0.levels());
        lemma_represents_extends(m1.nodes(), m2.nodes(), m0.levels(), subst@, m);
    }
    let r = match apply_ite(manager, subst[level as usize], t, e) {
        Ok(r) => r,
        Err(err) => {
            proof {
                lemma_substituted_decision(
                    m0.nodes(),
                    m1.nodes(),
                    m2.nodes(),
                    manager.nodes(),
                    m0.levels(),
                    subst@,
                    m,
                    f,
                    t,
                    e,
                );
                assert(part_of(manager.nodes(), f, f));
            }
            return Err(err);
        },
    };
    proof {
        lemma_substituted_decision(
            m0.nodes(),
            m1.nodes(),
            m2.nodes(),
            manager.nodes(),
            m0.levels(),
            subst@,
            m,
            f,
            t,
            e,
        );
    }
    manager.cache_add(key, r);
    Ok(r)
}

/// A substitution does not affect a function below all substituted variables.
pub(crate) proof fn lemma_subst_below(
    nodes: Seq<InnerNode>,
    levels: LevelNo,
    subst: Seq<Edge>,
    m: Map<LevelNo, Edge>,
    f: Edge,
)
    requires
        is_diagram(nodes, levels),
        valid(nodes, f),
        represents(nodes, subst, m),
        level_of(nodes, f) >= subst.len(),
    ensures
        is_substituted(nodes, m, f, f),
{
    assert forall|env: Set<LevelNo>| #[trigger]
        eval(nodes, f, env) == eval(nodes, f, subst_env(nodes, m, env)) by {
        lemma_eval_agree(nodes, levels, f, env, subst_env(nodes, m, env));
    }
}

/// Substitution in a decision: the decision on the substituted function between both substituted
/// cofactors. The diagrams are those before the substitution in the first cofactor (`a`), after it
/// (`b`), after the substitution in the second cofactor (`c`), and after the decision (`d`).
pub(crate) proof fn lemma_substituted_decision(
    a: Seq<InnerNode>,
    b: Seq<InnerNode>,
    c: Seq<InnerNode>,
    d: Seq<InnerNode>,
    levels: LevelNo,
    subst: Seq<Edge>,
    m: Map<LevelNo, Edge>,
    f: Edge,
    t: Edge,
    e: Edge,
)
    requires
        is_diagram(a, levels),
        is_diagram(b, levels),
        is_diagram(c, levels),
        extends(a, b),
        extends(b, c),
        extends(c, d),
        valid(a, f),
        is_inner(f),
        node_of(a, f).level < subst.len(),
        represents(a, subst, m),
        is_substituted(b, m, then_of(a, f), t),
        is_substituted(c, m, else_of(a, f), e),
    ensures
        ({
            let v = subst[node_of(a, f).level as int];
            &&& forall|r: Edge| #[trigger] is_ite(d, v, t, e, r) ==> is_substituted(d, m, f, r)
            &&& absent(d, ite_fn(d, v, t, e)) ==> absent(d, subst_fn(d, m, f))
        }),
{
    let level = node_of(a, f).level;
    let v = subst[level as int];
    let ft = then_of(a, f);
    let fe = else_of(a, f);
    lemma_cofactors(a, levels, f);
    lemma_extends(a, b, levels);
    lemma_extends(b, c, levels);
    lemma_extends(c, d, levels);
    assert(subst_valid(a, m)) by {
        assert forall|l: LevelNo| #[trigger] m.contains_key(l) implies valid(a, m[l]) by {
            assert(valid(a, subst[l as int]));
        }
    }
    lemma_subst_extends(a, b, levels, m);
    lemma_subst_extends(b, c, levels, m);
    lemma_subst_extends(c, d, levels, m);
    let ite = ite_fn(d, v, t, e);
    let substituted = subst_fn(d, m, f);
    assert forall|env: Set<LevelNo>| #[trigger] substituted(env) == ite(env) by {
        let senv = subst_env(a, m, env);
        assert(subst_env(d, m, env) == senv);
        assert(subst_env(c, m, env) == senv);
        assert(subst_env(b, m, env) == senv);
        assert(eval(b, t, env) == eval(b, ft, senv));
        assert(eval(c, e, env) == eval(c, fe, senv));
        assert(eval(d, t, env) == eval(a, ft, senv));
        assert(eval(d, e, env) == eval(a, fe, senv));
        assert(valid(a, v));
        assert(eval(d, v, env) == eval(a, v, env));
        assert(senv.contains(level) == eval(a, v, env));
        assert(eval(d, f, senv) == eval(a, f, senv));
    }
    assert forall|r: Edge| #[trigger] is_ite(d, v, t, e, r) implies is_substituted(d, m, f, r) by {
        assert forall|env: Set<LevelNo>| #[trigger]
            eval(d, r, env) == eval(d, f, subst_env(d, m, env)) by {
            assert(substituted(env) == ite(env));
        }
    }
    if absent(d, ite) {
        lemma_absent_same(d, ite, substituted);
    }
}

/// The outcome of [`restrict_inner`].
pub(crate) enum RestrictInnerResult {
    /// The result.
    Done(Edge),
    /// The function that `f` stands for with the tag replaced according to `f_neg`, restricted by
    /// `vars`; the node `fnode` of `f` is above `vars`.
    Rec { vars: Edge, f: Edge, f_neg: bool, fnode: InnerNode },
}

/// Removes the variables of `vars` at the level of `f` and above.
///
/// The function meant by `f` is that of its node, complemented if `f_neg`, whatever its tag is; the
/// same holds for `vars` and `vars_neg`.
pub(crate) fn restrict_inner(
    manager: &Manager,
    f: Edge,
    f_neg: bool,
    fnode: InnerNode,
    flevel: LevelNo,
    vars: Edge,
    vars_neg: bool,
    vnode: InnerNode,
) -> (r: RestrictInnerResult)
    requires
        manager.wf(),
        manager.has(f),
        manager.has(vars),
        is_inner(f),
        is_inner(vars),
        fnode == node_of(manager.nodes(), f),
        flevel == fnode.level,
        vnode == node_of(manager.nodes(), vars),
        is_cube(manager.nodes(), signed(vars, vars_neg)),
    ensures
        restrict_step(manager.nodes(), signed(f, f_neg), signed(vars, vars_neg), r),
        vnode.level > flevel ==> r == (RestrictInnerResult::Rec {
            vars: signed(vars, vars_neg),
            f: signed(f, f_neg),
            f_neg,
            fnode,
        }),
    decreases vars.node,
{
    let ghost nodes = manager.nodes();
    let ghost levels = manager.levels();
    let f = f.with_tag(EdgeTag::from_neg(f_neg));
    let vars = vars.with_tag(EdgeTag::from_neg(vars_neg));
    if vnode.level > flevel {
        // `f` above the top-most restricted variable
        return RestrictInnerResult::Rec { vars, f, f_neg, fnode };
    }
    proof {
        lemma_cofactors(nodes, levels, vars);
    }
    let (vt, ve) = collect_cofactors(vars.tag, vnode);
    let positive = ve == get_terminal(false);
    let rest = if positive {
        vt
    } else {
        ve
    };
    let g = if vnode.level == flevel {
        let (ft, fe) = collect_cofactors(f.tag, fnode);
        if positive {
            ft
        } else {
            fe
        }
    } else {
        f
    };
    proof {
        lemma_restrict_literal(nodes, levels, f, vars, positive, g);
    }
    match (manager.get_node(g), manager.get_node(rest)) {
        (Node::Inner(gnode), Node::Inner(rnode)) => {
            let g_neg = g.tag == EdgeTag::Complemented;
            let rest_neg = rest.tag == EdgeTag::Complemented;
            assert(signed(g, g_neg) == g);
            assert(signed(rest, rest_neg) == rest);
            let r = restrict_inner(manager, g, g_neg, gnode, gnode.level, rest, rest_neg, rnode);
            proof {
                lemma_restrict_step(nodes, f, vars, g, rest, r);
            }
            r
        },
        _ => {
            proof {
                assert forall|env: Set<LevelNo>| #[trigger]
                    eval(nodes, g, env) == eval(nodes, f, cube_assign(nodes, vars, env)) by {
                    assert(eval(nodes, f, cube_assign(nodes, vars, env)) == eval(
                        nodes,
                        g,
                        cube_assign(nodes, rest, env),
                    ));
                }
            }
            RestrictInnerResult::Done(g)
        },
    }
}

/// The edge to the node of `e`, complemented if `neg`.
pub(crate) open spec fn signed(e: Edge, neg: bool) -> Edge {
    e.tagged(
        if neg {
            EdgeTag::Complemented
        } else {
            EdgeTag::Regular
        },
    )
}

/// What [`restrict_inner`] guarantees for the function `f` and the cube `vars`.
pub(crate) open spec fn restrict_step(
    nodes: Seq<InnerNode>,
    f: Edge,
    vars: Edge,
    r: RestrictInnerResult,
) -> bool {
    match r {
        RestrictInnerResult::Done(h) => {
            &&& is_restricted(nodes, f, vars, h)
            &&& level_of(nodes, h) >= level_of(nodes, f)
        },
        RestrictInnerResult::Rec { vars: vars2, f: f2, f_neg, fnode } => {
            &&& valid(nodes, f2)
            &&& valid(nodes, vars2)
            &&& is_inner(f2)
            &&& is_inner(vars2)
            &&& f2.node <= f.node
            &&& fnode == node_of(nodes, f2)
            &&& is_cube(nodes, vars2)
            &&& level_of(nodes, f) <= level_of(nodes, f2) < level_of(nodes, vars2)
            &&& forall|env: Set<LevelNo>|
                eval(nodes, signed(f2, f_neg), #[trigger] cube_assign(nodes, vars2, env)) == eval(
                    nodes,
                    f,
                    cube_assign(nodes, vars, env),
                )
        },
    }
}

/// Restriction of `f` to the first literal of `vars`: `g` is the cofactor of `f` that the literal
/// selects, or `f` if its variable is above.
proof fn lemma_restrict_literal(
    nodes: Seq<InnerNode>,
    levels: LevelNo,
    f: Edge,
    vars: Edge,
    positive: bool,
    g: Edge,
)
    requires
        is_diagram(nodes, levels),
        valid(nodes, f),
        valid(nodes, vars),
        is_inner(f),
        is_inner(vars),
        positive == (else_of(nodes, vars) == Edge::constant(false)),
        level_of(nodes, vars) <= level_of(nodes, f),
        g == if level_of(nodes, vars) < level_of(nodes, f) {
            f
        } else if positive {
            then_of(nodes, f)
        } else {
            else_of(nodes, f)
        },
    ensures
        valid(nodes, g),
        g.node <= f.node,
        level_of(nodes, g) >= level_of(nodes, f),
        ({
            let rest = if positive {
                then_of(nodes, vars)
            } else {
                else_of(nodes, vars)
            };
            forall|env: Set<LevelNo>|
                eval(nodes, f, #[trigger] cube_assign(nodes, vars, env)) == eval(
                    nodes,
                    g,
                    cube_assign(nodes, rest, env),
                )
        }),
{
    let rest = if positive {
        then_of(nodes, vars)
    } else {
        else_of(nodes, vars)
    };
    let level = node_of(nodes, vars).level;
    lemma_cofactors(nodes, levels, f);
    lemma_cofactors(nodes, levels, vars);
    assert forall|env: Set<LevelNo>|
        eval(nodes, f, #[trigger] cube_assign(nodes, vars, env)) == eval(
            nodes,
            g,
            cube_assign(nodes, rest, env),
        ) by {
        let x = cube_assign(nodes, rest, env);
        lemma_eval_agree(nodes, levels, g, assign(x, level, positive), x);
    }
}

/// Dropping the first literal of `vars` reduces one restriction to another.
proof fn lemma_restrict_step(
    nodes: Seq<InnerNode>,
    f: Edge,
    vars: Edge,
    g: Edge,
    rest: Edge,
    r: RestrictInnerResult,
)
    requires
        restrict_step(nodes, g, rest, r),
        g.node <= f.node,
        level_of(nodes, g) >= level_of(nodes, f),
        forall|env: Set<LevelNo>|
            eval(nodes, f, #[trigger] cube_assign(nodes, vars, env)) == eval(
                nodes,
                g,
                cube_assign(nodes, rest, env),
            ),
    ensures
        restrict_step(nodes, f, vars, r),
{
    match r {
        RestrictInnerResult::Done(h) => {
            assert forall|env: Set<LevelNo>| #[trigger]
                eval(nodes, h, env) == eval(nodes, f, cube_assign(nodes, vars, env)) by {}
        },
        RestrictInnerResult::Rec { vars: vars2, f: f2, f_neg, fnode } => {
            assert forall|env: Set<LevelNo>|
                eval(nodes, signed(f2, f_neg), #[trigger] cube_assign(nodes, vars2, env)) == eval(
                    nodes,
                    f,
                    cube_assign(nodes, vars, env),
                ) by {
                assert(eval(nodes, f, cube_assign(nodes, vars, env)) == eval(
                    nodes,
                    g,
                    cube_assign(nodes, rest, env),
                ));
            }
        },
    }
}

/// Restriction of a decision above the restricted variables. The diagrams are those before the
/// restriction of the first child (`a`), after it (`b`), after that of the second child (`c`), and
/// after the decision (`d`).
pub(crate) proof fn lemma_restricted_decision(
    a: Seq<InnerNode>,
    b: Seq<InnerNode>,
    c: Seq<InnerNode>,
    d: Seq<InnerNode>,
    levels: LevelNo,
    f: Edge,
    vars: Edge,
    t: Edge,
    e: Edge,
    r: Edge,
)
    requires
        is_diagram(a, levels),
        is_diagram(b, levels),
        is_diagram(c, levels),
        extends(a, b),
        extends(b, c),
        extends(c, d),
        valid(a, f),
        valid(a, vars),
        is_inner(f),
        level_of(a, f) < level_of(a, vars),
        is_restricted(b, then_of(a, f), vars, t),
        is_restricted(c, else_of(a, f), vars, e),
        valid(d, r),
        forall|env: Set<LevelNo>| #[trigger]
            eval(d, r, env) == if env.contains(node_of(a, f).level) {
                eval(c, t, env)
            } else {
                eval(c, e, env)
            },
    ensures
        is_restricted(d, f, vars, r),
{
    let level = node_of(a, f).level;
    lemma_cofactors(a, levels, f);
    lemma_extends(a, b, levels);
    lemma_extends(b, c, levels);
    lemma_extends(c, d, levels);
    lemma_cube_extends(a, b, levels, vars);
    lemma_cube_extends(b, c, levels, vars);
    lemma_cube_extends(c, d, levels, vars);
    assert forall|env: Set<LevelNo>| #[trigger]
        eval(d, r, env) == eval(d, f, cube_assign(d, vars, env)) by {
        let x = cube_assign(a, vars, env);
        lemma_cube_below(a, levels, vars, env, level);
        assert(cube_assign(b, vars, env) == x);
        assert(cube_assign(c, vars, env) == x);
        assert(cube_assign(d, vars, env) == x);
        assert(eval(b, t, env) == eval(b, then_of(a, f), x));
        assert(eval(c, e, env) == eval(c, else_of(a, f), x));
        assert(eval(c, t, env) == eval(b, t, env));
        assert(eval(d, f, x) == eval(a, f, x));
    }
}

/// Recursively restricts the variables of the cube `vars` to its literals.
pub(crate) fn restrict(manager: &mut Manager, f: Edge, vars: Edge) -> (r: AllocResult<Edge>)
    requires
        old(manager).wf(),
        old(manager).has(f),
        old(manager).has(vars),
        is_inner(f) ==> is_cube(old(manager).nodes(), vars),
    ensures
        final(manager).wf(),
        old(manager).grows_to(final(manager)),
        match r {
            Ok(r) => {
                let nodes = final(manager).nodes();
                &&& is_restricted(nodes, f, vars, r)
                &&& level_of(nodes, r) >= level_of(nodes, f)
            },
            Err(_) => {
                let nodes = final(manager).nodes();
                &&& final(manager).is_full()
                &&& absent(nodes, restrict_fn(nodes, f, vars))
            },
        },
        !is_inner(f) || !is_inner(vars) ==> r == Ok::<Edge, OutOfMemory>(f),
        is_inner(f) && is_inner(vars) && level_of(old(manager).nodes(), f) < level_of(
            old(manager).nodes(),
            vars,
        ) ==> memoised(
            *old(manager),
            *final(manager),
            restrict_key(f, vars),
            flipped_result(r, f.tag == EdgeTag::Complemented),
        ),
        adds_parts(
            old(manager).nodes(),
            final(manager).nodes(),
            restrict_fn(old(manager).nodes(), f, vars),
        ),
    decreases f.node,
{
    proof {
        lemma_adds_none(manager.nodes());
    }
    let (fnode, vnode) = match (manager.get_node(f), manager.get_node(vars)) {
        (Node::Inner(fnode), Node::Inner(vnode)) => (fnode, vnode),
        _ => return Ok(f),
    };
    let f_neg = f.tag == EdgeTag::Complemented;
    let vars_neg = vars.tag == EdgeTag::Complemented;
    assert(signed(f, f_neg) == f);
    assert(signed(vars, vars_neg) == vars);
    let ghost f0 = f;
    let ghost vars0 = vars;
    match restrict_inner(manager, f, f_neg, fnode, fnode.level, vars, vars_neg, vnode) {
        RestrictInnerResult::Done(result) => Ok(result),
        RestrictInnerResult::Rec { vars, f, f_neg, fnode } => {
            let f_untagged = f.with_tag(EdgeTag::Regular);
            let f_tag = EdgeTag::from_neg(f_neg);
            let ghost m0 = *manager;
            let key = BCDDKey {
                op: BCDDOp::Restrict,
                f: f_untagged,
                g: vars,
                h: get_terminal(true),
                num: 0,
            };
            match manager.cache_get(key) {
                Some(result) => {
                    proof {
                        lemma_restrict_tag(
                            m0.nodes(),
                            m0.nodes(),
                            m0.levels(),
                            f0,
                            vars0,
                            f_untagged,
                            f_neg,
                            vars,
                            result,
                        );
                    }
                    return Ok(result.xor_tag(f_tag));
                },
                None => {},
            }
            proof {
                lemma_cofactors(m0.nodes(), m0.levels(), f_untagged);
                assert(signed(f_untagged, f_neg) == f_untagged.flipped(f_neg));
                assert(then_of(m0.nodes(), f_untagged) == fnode.t);
                assert(else_of(m0.nodes(), f_untagged) == fnode.e);
            }
            let t = match restrict(manager, fnode.t, vars) {
                Ok(t) => t,
                Err(err) => {
                    proof {
                        lemma_absent_restrict_step(
                            m0.nodes(),
                            manager.nodes(),
                            m0.levels(),
                            f0,
                            vars0,
                            f_untagged,
                            f_neg,
                            vars,
                        );
                        lemma_adds_restrict(
                            m0.nodes(),
                            manager.nodes(),
                            manager.nodes(),
                            manager.nodes(),
                            m0.levels(),
                            f0,
                            vars0,
                            f_untagged,
                            f_neg,
                            vars,
                            f0,
                            f0,
                        );
                    }
                    return Err(err);
                },
            };
            let ghost m1 = *manager;
            proof {
                lemma_extends(m0.nodes(), m1.nodes(), m0.levels());
                lemma_cube_extends(m0.nodes(), m1.nodes(), m0.levels(), vars);
            }
            let e = match restrict(manager, fnode.e, vars) {
                Ok(e) => e,
                Err(err) => {
                    proof {
                        lemma_absent_restrict_step(
                            m0.nodes(),
                            manager.nodes(),
                            m0.levels(),
                            f0,
                            vars0,
                            f_untagged,
                            f_neg,
                            vars,
                        );
                        lemma_adds_restrict(
                            m0.nodes(),
                            m1.nodes(),
                            manager.nodes(),
                            manager.nodes(),
                            m0.levels(),
                            f0,
                            vars0,
                            f_untagged,
                            f_neg,
                            vars,
                            f0,
                            f0,
                        );
                    }
                    return Err(err);
                },
            };
            let ghost m2 = *manager;
            proof {
                lemma_extends(m1.nodes(), m2.nodes(), m0.levels());
            }
            let result = match reduce(manager, fnode.level, t, e) {
                Ok(result) => result,
                Err(err) => {
                    proof {
                        let nodes = manager.nodes();
                        lemma_restrict_denotes(m1.nodes(), nodes, m0.levels(), fnode.t, vars, t);
                        lemma_restrict_denotes(m2.nodes(), nodes, m0.levels(), fnode.e, vars, e);
                        lemma_absent_restrict_step(
                            m0.nodes(),
                            manager.nodes(),
                            m0.levels(),
                            f0,
                            vars0,
                            f_untagged,
                            f_neg,
                            vars,
                        );
                        lemma_adds_restrict(
                            m0.nodes(),
                            m1.nodes(),
                            m2.nodes(),
                            manager.nodes(),
                            m0.levels(),
                            f0,
                            vars0,
                            f_untagged,
                            f_neg,
                            vars,
                            f0,
                            f0,
                        );
                    }
                    return Err(err);
                },
            };
            proof {
                lemma_adds_restrict(
                    m0.nodes(),
                    m1.nodes(),
                    m2.nodes(),
                    manager.nodes(),
                    m0.levels(),
                    f0,
                    vars0,
                    f_untagged,
                    f_neg,
                    vars,
                    t,
                    e,
                );
                lemma_extends(m2.nodes(), manager.nodes(), m0.levels());
                lemma_restricted_decision(
                    m0.nodes(),
                    m1.nodes(),
                    m2.nodes(),
                    manager.nodes(),
                    m0.levels(),
                    f_untagged,
                    vars,
                    t,
                    e,
                    result,
                );
                lemma_restrict_tag(
                    m0.nodes(),
                    manager.nodes(),
                    m0.levels(),
                    f0,
                    vars0,
                    f_untagged,
                    f_neg,
                    vars,
                    result,
                );
            }
            manager.cache_add(key, result);
            Ok(result.xor_tag(f_tag))
        },
    }
}

/// From the restriction of the untagged edge `g` by `rest` to that of `f` by `vars`, where
/// [`restrict_inner`] has reduced the latter to the former in the diagram `a`.
pub(crate) proof fn lemma_restrict_tag(
    a: Seq<InnerNode>,
    b: Seq<InnerNode>,
    levels: LevelNo,
    f: Edge,
    vars: Edge,
    g: Edge,
    g_neg: bool,
    rest: Edge,
    r: Edge,
)
    requires
        is_diagram(a, levels),
        extends(a, b),
        valid(a, f),
        valid(a, vars),
        valid(a, g),
        valid(a, rest),
        !g.neg(),
        is_restricted(b, g, rest, r),
        forall|env: Set<LevelNo>|
            eval(a, signed(g, g_neg), #[trigger] cube_assign(a, rest, env)) == eval(
                a,
                f,
                cube_assign(a, vars, env),
            ),
    ensures
        is_restricted(b, f, vars, r.flipped(g_neg)),
{
    lemma_extends(a, b, levels);
    lemma_cube_extends(a, b, levels, vars);
    lemma_cube_extends(a, b, levels, rest);
    assert forall|env: Set<LevelNo>| #[trigger]
        eval(b, r.flipped(g_neg), env) == eval(b, f, cube_assign(b, vars, env)) by {
        lemma_eval_flipped(b, r, g_neg, env);
        let x = cube_assign(a, rest, env);
        assert(cube_assign(b, rest, env) == x);
        assert(cube_assign(b, vars, env) == cube_assign(a, vars, env));
        lemma_eval_flipped(a, g, g_neg, x);
        assert(signed(g, g_neg) == g.flipped(g_neg));
        assert(eval(b, r, env) == eval(b, g, x));
        assert(eval(b, g, x) == eval(a, g, x));
    }
}

/// A restriction that an edge stands for in `a` is the one it stands for in `b`.
pub(crate) proof fn lemma_restrict_denotes(
    a: Seq<InnerNode>,
    b: Seq<InnerNode>,
    levels: LevelNo,
    f: Edge,
    vars: Edge,
    r: Edge,
)
    requires
        is_diagram(a, levels),
        extends(a, b),
        valid(a, f),
        valid(a, vars),
        is_restricted(a, f, vars, r),
    ensures
        denotes(b, r, restrict_fn(b, f, vars)),
{
    lemma_extends(a, b, levels);
    lemma_cube_extends(a, b, levels, vars);
    assert forall|env: Set<LevelNo>| #[trigger] eval(b, r, env) == eval(
        b,
        f,
        cube_assign(b, vars, env),
    ) by {
        assert(eval(a, r, env) == eval(a, f, cube_assign(a, vars, env)));
        assert(cube_assign(b, vars, env) == cube_assign(a, vars, env));
        assert(eval(b, f, cube_assign(a, vars, env)) == eval(a, f, cube_assign(a, vars, env)));
    }
}

/// The restriction of `f` by `vars` has no edge if that of the untagged edge `g` by `rest` cannot be
/// decided, where [`restrict_inner`] has reduced the former to the latter in the diagram `a`.
pub(crate) proof fn lemma_absent_restrict_step(
    a: Seq<InnerNode>,
    b: Seq<InnerNode>,
    levels: LevelNo,
    f: Edge,
    vars: Edge,
    g: Edge,
    g_neg: bool,
    rest: Edge,
)
    requires
        is_diagram(a, levels),
        is_diagram(b, levels),
        extends(a, b),
        valid(a, f),
        valid(a, vars),
        valid(a, g),
        valid(a, rest),
        is_inner(g),
        !g.neg(),
        level_of(a, g) < level_of(a, rest),
        forall|env: Set<LevelNo>|
            eval(a, signed(g, g_neg), #[trigger] cube_assign(a, rest, env)) == eval(
                a,
                f,
                cube_assign(a, vars, env),
            ),
        absent(b, restrict_fn(b, then_of(a, g), rest)) || absent(
            b,
            restrict_fn(b, else_of(a, g), rest),
        ) || undecided(
            b,
            node_of(a, g).level,
            restrict_fn(b, then_of(a, g), rest),
            restrict_fn(b, else_of(a, g), rest),
        ),
    ensures
        absent(b, restrict_fn(b, f, vars)),
{
    lemma_absent_restrict(a, b, levels, g, rest);
    lemma_extends(a, b, levels);
    lemma_cube_extends(a, b, levels, vars);
    lemma_cube_extends(a, b, levels, rest);
    let value = restrict_fn(b, g, rest);
    let other = restrict_fn(b, f, vars);
    assert forall|env: Set<LevelNo>| #[trigger] other(env) == (value(env) != g_neg) by {
        let x = cube_assign(a, rest, env);
        let y = cube_assign(a, vars, env);
        assert(cube_assign(b, rest, env) == x);
        assert(cube_assign(b, vars, env) == y);
        assert(eval(b, f, y) == eval(a, f, y));
        assert(eval(b, g, x) == eval(a, g, x));
        lemma_eval_flipped(a, g, g_neg, x);
        assert(signed(g, g_neg) == g.flipped(g_neg));
    }
    if g_neg {
        lemma_absent_negated(b, value, other);
    } else {
        lemma_absent_same(b, value, other);
    }
}

/// The quantified set after the variables above a function are removed.
pub(crate) open spec fn same_quantified(
    nodes: Seq<InnerNode>,
    op: BCDDOp,
    f: Edge,
    vars: Edge,
    popped: Edge,
) -> bool {
    forall|env: Set<LevelNo>| #[trigger]
        quantify(op, nodes, f, var_set(nodes, vars), env) == quantify(
            op,
            nodes,
            f,
            var_set(nodes, popped),
            env,
        )
}

/// The quantification of a constant.
pub(crate) proof fn lemma_quantified_constant(
    nodes: Seq<InnerNode>,
    levels: LevelNo,
    op: BCDDOp,
    f: Edge,
    vars: Edge,
)
    requires
        is_diagram(nodes, levels),
        valid(nodes, vars),
        !is_inner(f),
        is_quantifier(op),
    ensures
        op != BCDDOp::Unique || !is_inner(vars) ==> is_quantified(nodes, op, f, vars, f),
        op == BCDDOp::Unique && is_inner(vars) ==> is_quantified(
            nodes,
            op,
            f,
            vars,
            Edge::constant(false),
        ),
{
    let vs = var_set(nodes, vars);
    lemma_var_set_below(nodes, levels, vars);
    assert forall|env: Set<LevelNo>| #[trigger] quantify(op, nodes, f, vs, env) == if op
        != BCDDOp::Unique || !is_inner(vars) {
        eval(nodes, f, env)
    } else {
        false
    } by {
        if op != BCDDOp::Unique {
            lemma_quantify_skip(nodes, levels, op, f, vs, vs.len() as int, env);
        } else if is_inner(vars) {
            lemma_quantify_above(nodes, levels, op, f, vs, env);
        }
    }
}

/// Unique quantification over a variable above `f` yields "false".
pub(crate) proof fn lemma_unique_above(
    nodes: Seq<InnerNode>,
    levels: LevelNo,
    f: Edge,
    vars: Edge,
)
    requires
        is_diagram(nodes, levels),
        valid(nodes, f),
        valid(nodes, vars),
        is_inner(vars),
        level_of(nodes, vars) < level_of(nodes, f),
    ensures
        is_quantified(nodes, BCDDOp::Unique, f, vars, Edge::constant(false)),
{
    let vs = var_set(nodes, vars);
    lemma_var_set_below(nodes, levels, vars);
    assert forall|env: Set<LevelNo>| !#[trigger] quantify(BCDDOp::Unique, nodes, f, vs, env) by {
        lemma_quantify_above(nodes, levels, BCDDOp::Unique, f, vs, env);
    }
}

/// Quantification of a decision, where the variables are at the level of the decision or below.
/// The diagrams are those before the quantification of the first cofactor (`a`), after it (`b`),
/// after that of the second cofactor (`c`), and after the combination of both results (`d`).
pub(crate) proof fn lemma_quantified_decision(
    a: Seq<InnerNode>,
    b: Seq<InnerNode>,
    c: Seq<InnerNode>,
    d: Seq<InnerNode>,
    levels: LevelNo,
    op: BCDDOp,
    f: Edge,
    vars: Edge,
    t: Edge,
    e: Edge,
)
    requires
        is_diagram(a, levels),
        is_diagram(b, levels),
        is_diagram(c, levels),
        extends(a, b),
        extends(b, c),
        extends(c, d),
        valid(a, f),
        valid(a, vars),
        is_inner(f),
        is_inner(vars),
        is_quantifier(op),
        level_of(a, f) <= level_of(a, vars),
        ({
            let rest = if level_of(a, f) == level_of(a, vars) {
                node_of(a, vars).t
            } else {
                vars
            };
            &&& is_quantified(b, op, then_of(a, f), rest, t)
            &&& is_quantified(c, op, else_of(a, f), rest, e)
        }),
    ensures
        ({
            let top = level_of(a, f) == level_of(a, vars);
            let value = combined_fn(d, op, top, node_of(a, f).level, t, e);
            let quantified = quant_fn(d, op, f, var_set(a, vars));
            &&& var_set(d, vars) == var_set(a, vars)
            &&& forall|r: Edge| #[trigger]
                denotes(d, r, value) ==> is_quantified(d, op, f, vars, r)
            &&& absent(d, value) ==> absent(d, quantified)
        }),
{
    let top = level_of(a, f) == level_of(a, vars);
    let level = node_of(a, f).level;
    let rest = if top {
        node_of(a, vars).t
    } else {
        vars
    };
    let ft = then_of(a, f);
    let fe = else_of(a, f);
    lemma_cofactors(a, levels, f);
    lemma_cofactors(a, levels, vars);
    lemma_var_set_below(a, levels, vars);
    lemma_var_set_below(a, levels, rest);
    lemma_extends(a, b, levels);
    lemma_extends(b, c, levels);
    lemma_extends(c, d, levels);
    lemma_var_set_extends(a, b, levels, rest);
    lemma_var_set_extends(b, c, levels, rest);
    lemma_var_set_extends(a, b, levels, vars);
    lemma_var_set_extends(b, c, levels, vars);
    lemma_var_set_extends(c, d, levels, vars);
    let vs = var_set(a, vars);
    let ws = var_set(a, rest);
    let value = combined_fn(d, op, top, level, t, e);
    let quantified = quant_fn(d, op, f, vs);
    assert forall|env: Set<LevelNo>| #[trigger] quantified(env) == value(env) by {
        lemma_quantify_extends(a, b, levels, op, f, vs, env);
        lemma_quantify_extends(b, c, levels, op, f, vs, env);
        lemma_quantify_extends(c, d, levels, op, f, vs, env);
        lemma_quantify_extends(a, b, levels, op, ft, ws, env);
        lemma_quantify_extends(a, b, levels, op, fe, ws, env);
        lemma_quantify_extends(b, c, levels, op, fe, ws, env);
        assert(eval(b, t, env) == quantify(op, b, ft, var_set(b, rest), env));
        assert(eval(c, e, env) == quantify(op, c, fe, var_set(c, rest), env));
        assert(eval(c, t, env) == eval(b, t, env));
        assert(eval(d, t, env) == eval(c, t, env));
        assert(eval(d, e, env) == eval(c, e, env));
        if top {
            assert forall|i: int| 1 <= i < vs.len() implies #[trigger] vs[i] > vs[0] by {
                assert(vs[i] == ws[i - 1]);
            }
            lemma_quantify_top(a, levels, op, f, vs, env);
        } else {
            lemma_quantify_decision(a, levels, op, f, vs, env);
        }
    }
    assert forall|r: Edge| #[trigger] denotes(d, r, value) implies is_quantified(
        d,
        op,
        f,
        vars,
        r,
    ) by {
        assert forall|env: Set<LevelNo>| #[trigger]
            eval(d, r, env) == quantify(op, d, f, var_set(d, vars), env) by {
            assert(quantified(env) == value(env));
        }
    }
    if absent(d, value) {
        lemma_absent_same(d, value, quantified);
    }
}

/// Recursively computes the quantification `op` of `f` over the variables of the set `vars`.
#[verifier::rlimit(80)]
#[verifier::spinoff_prover]
pub(crate) fn quant(manager: &mut Manager, op: BCDDOp, f: Edge, vars: Edge) -> (r: AllocResult<
    Edge,
>)
    requires
        old(manager).wf(),
        old(manager).has(f),
        old(manager).has(vars),
        is_quantifier(op),
    ensures
        final(manager).wf(),
        old(manager).grows_to(final(manager)),
        match r {
            Ok(r) => {
                let nodes = final(manager).nodes();
                &&& is_quantified(nodes, op, f, vars, r)
                &&& level_of(nodes, r) >= level_of(nodes, f)
            },
            Err(_) => {
                let nodes = final(manager).nodes();
                &&& final(manager).is_full()
                &&& lacks_quantified(nodes, op, f, var_set(nodes, vars))
            },
        },
        quant_trivial(old(manager).nodes(), op, f, vars) matches Some(e) ==> r == Ok::<
            Edge,
            OutOfMemory,
        >(e),
        quant_trivial(old(manager).nodes(), op, f, vars) is None ==> memoised(
            *old(manager),
            *final(manager),
            quant_key(old(manager).nodes(), op, f, vars),
            r,
        ),
    decreases f.node,
{
    let ghost m0 = *manager;
    proof {
        lemma_quant_trivial(m0.nodes(), m0.levels(), op, f, vars);
    }
    // Terminal cases
    let fnode = match manager.get_node(f) {
        Node::Inner(n) => n,
        Node::Terminal => {
            proof {
                lemma_quantified_constant(m0.nodes(), m0.levels(), op, f, vars);
            }
            return Ok(
                if op != BCDDOp::Unique || vars.node == 0 {
                    f
                } else {
                    // exclusive disjunction of twice the same
                    get_terminal(false)
                },
            );
        },
    };
    let flevel: LevelNo = fnode.level;
    let ghost vars0 = vars;
    let vars = quant_pop(manager, op, f, vars, flevel);
    let ghost vs0 = var_set(m0.nodes(), vars0);
    let ghost k0 = choose|k: int|
        #![trigger vs0.skip(k)]
        0 <= k <= vs0.len() && var_set(m0.nodes(), vars) == vs0.skip(k);
    let vnode = match manager.get_node(vars) {
        Node::Inner(n) => n,
        Node::Terminal => return Ok(f),
    };
    let vlevel: LevelNo = vnode.level;
    if op == BCDDOp::Unique && vlevel < flevel {
        // The variable does not occur in `f`.
        proof {
            lemma_unique_above(m0.nodes(), m0.levels(), f, vars);
        }
        return Ok(get_terminal(false));
    }

    let key = BCDDKey { op, f, g: vars, h: get_terminal(true), num: 0 };
    match manager.cache_get(key) {
        Some(r) => return Ok(r),
        None => {},
    }

    proof {
        lemma_cofactors(m0.nodes(), m0.levels(), f);
        lemma_cofactors(m0.nodes(), m0.levels(), vars);
    }
    let (ft, fe) = collect_cofactors(f.tag, fnode);
    let ghost k1 = if vlevel == flevel {
        k0 + 1
    } else {
        k0
    };
    let vt = if vlevel == flevel {
        vnode.t
    } else {
        vars
    };
    proof {
        lemma_var_set_below(m0.nodes(), m0.levels(), vars);
        assert(vs0.skip(k0).drop_first() =~= vs0.skip(k0 + 1));
        assert(var_set(m0.nodes(), vt) == vs0.skip(k1));
    }
    let t = match quant(manager, op, ft, vt) {
        Ok(t) => t,
        Err(err) => {
            proof {
                lemma_lacks_cofactor(
                    m0.nodes(),
                    manager.nodes(),
                    m0.levels(),
                    op,
                    f,
                    vars0,
                    vt,
                    k1,
                );
            }
            return Err(err);
        },
    };
    let ghost m1 = *manager;
    proof {
        lemma_extends(m0.nodes(), m1.nodes(), m0.levels());
    }
    let e = match quant(manager, op, fe, vt) {
        Ok(e) => e,
        Err(err) => {
            proof {
                lemma_lacks_cofactor(
                    m0.nodes(),
                    manager.nodes(),
                    m0.levels(),
                    op,
                    f,
                    vars0,
                    vt,
                    k1,
                );
            }
            return Err(err);
        },
    };
    let ghost m2 = *manager;
    proof {
        lemma_extends(m1.nodes(), m2.nodes(), m0.levels());
    }
    let combined = if flevel == vlevel {
        match op {
            BCDDOp::Forall => apply_and(manager, t, e),
            BCDDOp::Exist => negate(apply_and(manager, not(t), not(e))),
            _ => apply_bin(manager, BCDDOp::Xor, t, e),
        }
    } else {
        reduce(manager, flevel, t, e)
    };
    proof {
        lemma_negation(manager.nodes());
        lemma_extends(m2.nodes(), manager.nodes(), m0.levels());
        lemma_quantified_decision(
            m0.nodes(),
            m1.nodes(),
            m2.nodes(),
            manager.nodes(),
            m0.levels(),
            op,
            f,
            vars,
            t,
            e,
        );
    }
    let r = match combined {
        Ok(r) => r,
        Err(err) => {
            proof {
                let nodes = manager.nodes();
                lemma_absent_combined(nodes, m0.levels(), op, flevel == vlevel, flevel, t, e);
                lemma_var_set_extends(m0.nodes(), nodes, m0.levels(), vars0);
                lemma_lacks_quantified(m0.nodes(), nodes, m0.levels(), op, f, vs0, k0);
            }
            return Err(err);
        },
    };
    proof {
        assert(denotes(
            manager.nodes(),
            r,
            combined_fn(manager.nodes(), op, flevel == vlevel, flevel, t, e),
        ));
        lemma_popped_extends(m0.nodes(), manager.nodes(), m0.levels(), op, f, vars0, vars);
    }
    manager.cache_add(key, r);
    Ok(r)
}

/// A quantification lacks what the quantification of a cofactor over the set `rest` lacks, where
/// `rest` consists of the variables of `vars` from index `k` on.
pub(crate) proof fn lemma_lacks_cofactor(
    a: Seq<InnerNode>,
    nodes: Seq<InnerNode>,
    levels: LevelNo,
    op: BCDDOp,
    f: Edge,
    vars: Edge,
    rest: Edge,
    k: int,
)
    requires
        is_diagram(a, levels),
        extends(a, nodes),
        valid(a, f),
        valid(a, vars),
        valid(a, rest),
        is_inner(f),
        0 <= k <= var_set(a, vars).len(),
        var_set(a, rest) == var_set(a, vars).skip(k),
        lacks_quantified(nodes, op, then_of(a, f), var_set(nodes, rest)) || lacks_quantified(
            nodes,
            op,
            else_of(a, f),
            var_set(nodes, rest),
        ),
    ensures
        lacks_quantified(nodes, op, f, var_set(nodes, vars)),
{
    lemma_var_set_extends(a, nodes, levels, vars);
    lemma_var_set_extends(a, nodes, levels, rest);
    lemma_lacks_quantified(a, nodes, levels, op, f, var_set(a, vars), k);
}

/// Removes the variables above `f` from the set `vars`, unless `op` is the unique quantifier: then
/// such a variable matters.
pub(crate) fn quant_pop(manager: &Manager, op: BCDDOp, f: Edge, vars: Edge, flevel: LevelNo) -> (r:
    Edge)
    requires
        manager.wf(),
        manager.has(f),
        manager.has(vars),
        is_inner(f),
        is_quantifier(op),
        flevel == node_of(manager.nodes(), f).level,
    ensures
        manager.has(r),
        same_quantified(manager.nodes(), op, f, vars, r),
        op == BCDDOp::Unique ==> r == vars,
        exists|k: int|
            #![trigger var_set(manager.nodes(), vars).skip(k)]
            0 <= k <= var_set(manager.nodes(), vars).len() && var_set(manager.nodes(), r)
                == var_set(manager.nodes(), vars).skip(k),
        op != BCDDOp::Unique ==> level_of(manager.nodes(), r) >= flevel,
        op != BCDDOp::Unique ==> r == popped(manager.nodes(), vars, flevel as int),
        op != BCDDOp::Unique ==> (is_inner(r) <==> quant_trivial(
            manager.nodes(),
            op,
            f,
            vars,
        ) is None),
{
    if op == BCDDOp::Unique {
        assert(var_set(manager.nodes(), vars).skip(0) =~= var_set(manager.nodes(), vars));
        return vars;
    }
    let r = set_pop(manager, vars, flevel);
    proof {
        let nodes = manager.nodes();
        let vs = var_set(nodes, vars);
        let k: int = choose|k: int|
            #![trigger vs.skip(k)]
            {
                &&& 0 <= k <= vs.len()
                &&& var_set(nodes, r) == vs.skip(k)
                &&& forall|i: int| 0 <= i < k ==> #[trigger] vs[i] < flevel
            };
        assert forall|env: Set<LevelNo>| #[trigger]
            quantify(op, nodes, f, vs, env) == quantify(op, nodes, f, var_set(nodes, r), env) by {
            lemma_quantify_skip(nodes, manager.levels(), op, f, vs, k, env);
        }
        if is_inner(r) {
            lemma_var_set_below(nodes, manager.levels(), r);
            assert(vs.skip(k)[0] == vs[k]);
            assert(vs[k] >= level_of(nodes, f));
        } else {
            assert(var_set(nodes, r).len() == 0);
            assert(vs.skip(k).len() == 0);
        }
    }
    r
}

/// Removed variables stay irrelevant when nodes are added.
pub(crate) proof fn lemma_popped_extends(
    a: Seq<InnerNode>,
    b: Seq<InnerNode>,
    levels: LevelNo,
    op: BCDDOp,
    f: Edge,
    vars: Edge,
    popped: Edge,
)
    requires
        is_diagram(a, levels),
        extends(a, b),
        valid(a, f),
        valid(a, vars),
        valid(a, popped),
        same_quantified(a, op, f, vars, popped),
    ensures
        same_quantified(b, op, f, vars, popped),
{
    lemma_var_set_extends(a, b, levels, vars);
    lemma_var_set_extends(a, b, levels, popped);
    assert forall|env: Set<LevelNo>| #[trigger]
        quantify(op, b, f, var_set(b, vars), env) == quantify(op, b, f, var_set(b, popped), env) by {
        lemma_quantify_extends(a, b, levels, op, f, var_set(a, vars), env);
        lemma_quantify_extends(a, b, levels, op, f, var_set(a, popped), env);
        assert(quantify(op, a, f, var_set(a, vars), env) == quantify(
            op,
            a,
            f,
            var_set(a, popped),
            env,
        ));
    }
}

} // verus!
