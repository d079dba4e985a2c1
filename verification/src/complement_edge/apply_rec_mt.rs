//! Recursive apply algorithms that split the work down to a given depth, and the Boolean function
//! interface on top of them.

use super::apply_rec_st;
use super::apply_rec_st::{
    lemma_absent_restrict_step, lemma_lacks_cofactor, lemma_popped_extends,
    lemma_quantified_constant, lemma_quantified_decision, lemma_restrict_denotes,
    lemma_restrict_tag, lemma_restricted_decision, lemma_subst_below, lemma_substituted_decision,
    lemma_unique_above, min_level, negate, quant_pop, restrict_inner, signed, RestrictInnerResult,
};
use super::canonicity::{
    absent, bin_fn, combined_fn, denotes, ite_fn, lacks_quantified, lacks_substituted,
    lemma_absent_bin, lemma_absent_combined, lemma_absent_ite, lemma_absent_ite_as_bin,
    lemma_absent_negated, lemma_lacks_quantified, lemma_lacks_substituted, part_of, restrict_fn,
};
use super::edge::{BCDDOp, Edge, EdgeTag, InnerNode, LevelNo, Node};
use super::growth::{
    adds_parts, lemma_adds_bin, lemma_adds_ite, lemma_adds_ite_as_bin, lemma_adds_negated,
    lemma_adds_none, lemma_adds_restrict, lemma_adds_same,
};
use super::manager::{
    bin_memoised, flipped_result, is_registered, ite_key, lemma_full, memoised, quant_key,
    restrict_key, subst_key, variable_node, BCDDKey, Manager,
};
use super::operators::{
    cube_assign, is_bin, is_cube, is_ite, is_quantified, is_quantifier, is_restricted,
    is_substituted, lemma_cube_extends, lemma_quantify_extends, lemma_represents_extends,
    lemma_quant_trivial, lemma_subst_extends, lemma_var_set_below, lemma_var_set_extends,
    quant_trivial, quantify, subst_env, var_set,
};
use super::semantics::{
    else_of, eval, extends, is_diagram, is_inner, lemma_cofactors, lemma_eval_agree, lemma_extends,
    lemma_negation,
    level_of, node_of, then_of, valid,
};
use super::substitution::{
    below_substituted, lemma_pairs_map_valid, pairs_map, pairs_valid, substitute_prepare,
    Substitution,
};
use super::valuation;
use super::valuation::{args_env, args_valid, may_pick, sat_count, SatCountCache};
use super::{
    cofactors_at, collect_cofactors, get_terminal, not, reduce, terminal_and, terminal_xor,
    NodesOrDone,
};
use crate::util::math::ilog2;
use crate::util::{AllocResult, OutOfMemory};
use vstd::arithmetic::power2::pow2;
use vstd::prelude::*;

verus! {

/// The results of two branches of the recursion that were both carried out: the error of the first
/// branch that failed, if any.
fn both(t: AllocResult<Edge>, e: AllocResult<Edge>) -> (r: AllocResult<(Edge, Edge)>)
    ensures
        match (t, e) {
            (Ok(t), Ok(e)) => r == Ok::<(Edge, Edge), OutOfMemory>((t, e)),
            (Err(err), _) => r == Err::<(Edge, Edge), OutOfMemory>(err),
            (Ok(_), Err(err)) => r == Err::<(Edge, Edge), OutOfMemory>(err),
        },
{
    match (t, e) {
        (Ok(t), Ok(e)) => Ok((t, e)),
        (Err(err), _) => Err(err),
        (Ok(_), Err(err)) => Err(err),
    }
}

/// Recursively applies the binary operator `op` (`And` or `Xor`) to `f` and `g`.
///
/// `depth` is decremented for each recursive call. If it reaches 0, this function simply calls
/// [`apply_rec_st::apply_bin`].
#[verifier::rlimit(40)]
pub(crate) fn apply_bin(
    manager: &mut Manager,
    op: BCDDOp,
    depth: u32,
    f: Edge,
    g: Edge,
) -> (r: AllocResult<Edge>)
    requires
        old(manager).wf(),
        old(manager).has(f),
        old(manager).has(g),
        op == BCDDOp::And || op == BCDDOp::Xor,
    ensures
        final(manager).wf(),
        old(manager).grows_to(final(manager)),
        match r {
            Ok(h) => {
                let nodes = final(manager).nodes();
                &&& is_bin(nodes, op, f, g, h)
                &&& level_of(nodes, h) >= level_of(nodes, f) || level_of(nodes, h) >= level_of(
                    nodes,
                    g,
                )
            },
            Err(_) => {
                let nodes = final(manager).nodes();
                &&& final(manager).is_full()
                &&& absent(nodes, bin_fn(nodes, op, f, g))
            },
        },
        bin_memoised(*old(manager), *final(manager), op, f, g, false, r),
        adds_parts(
            old(manager).nodes(),
            final(manager).nodes(),
            bin_fn(old(manager).nodes(), op, f, g),
        ),
    decreases f.node + g.node,
{
    proof {
        lemma_adds_none(manager.nodes());
    }
    if depth == 0 {
        return apply_rec_st::apply_bin(manager, op, f, g);
    }
    let terminal = if op == BCDDOp::And {
        terminal_and(manager, f, g)
    } else {
        terminal_xor(manager, f, g)
    };
    // Both operators are commutative, hence the operands are ordered to have a unique
    // representation of the set `{f, g}` in the apply cache.
    let (f, fnode, g, gnode) = match terminal {
        NodesOrDone::Nodes(fnode, gnode) => if f.node < g.node {
            (f, fnode, g, gnode)
        } else {
            (g, gnode, f, fnode)
        },
        NodesOrDone::Done(h) => return Ok(h),
    };

    let key = BCDDKey { op, f, g, h: get_terminal(true), num: 0 };
    match manager.cache_get(key) {
        Some(h) => return Ok(h),
        None => {},
    }

    let level: LevelNo = min_level(fnode.level, gnode.level);
    let (ft, fe) = cofactors_at(manager, f, fnode, level);
    let (gt, ge) = cofactors_at(manager, g, gnode, level);
    let ghost m0 = *manager;

    let d: u32 = depth - 1;
    let rt = apply_bin(manager, op, d, ft, gt);
    let ghost m1 = *manager;
    proof {
        lemma_extends(m0.nodes(), m1.nodes(), m0.levels());
    }
    let re = apply_bin(manager, op, d, fe, ge);
    let ghost m2 = *manager;
    proof {
        lemma_extends(m1.nodes(), m2.nodes(), m0.levels());
    }
    let (t, e) = match both(rt, re) {
        Ok(te) => te,
        Err(err) => {
            proof {
                if rt is Err {
                    lemma_full(&m1, &m2);
                }
                lemma_absent_bin(
                    m0.nodes(),
                    manager.nodes(),
                    m0.levels(),
                    op,
                    level,
                    f,
                    ft,
                    fe,
                    g,
                    gt,
                    ge,
                );
                lemma_adds_bin(
                    m0.nodes(),
                    m1.nodes(),
                    manager.nodes(),
                    manager.nodes(),
                    m0.levels(),
                    op,
                    level,
                    f,
                    ft,
                    fe,
                    g,
                    gt,
                    ge,
                    f,
                    f,
                );
            }
            return Err(err);
        },
    };
    let h = match reduce(manager, level, t, e) {
        Ok(h) => h,
        Err(err) => {
            proof {
                let nodes = manager.nodes();
                assert(denotes(nodes, t, bin_fn(nodes, op, ft, gt)));
                assert(denotes(nodes, e, bin_fn(nodes, op, fe, ge)));
                lemma_absent_bin(
                    m0.nodes(),
                    manager.nodes(),
                    m0.levels(),
                    op,
                    level,
                    f,
                    ft,
                    fe,
                    g,
                    gt,
                    ge,
                );
                lemma_adds_bin(
                    m0.nodes(),
                    m1.nodes(),
                    m2.nodes(),
                    manager.nodes(),
                    m0.levels(),
                    op,
                    level,
                    f,
                    ft,
                    fe,
                    g,
                    gt,
                    ge,
                    f,
                    f,
                );
            }
            return Err(err);
        },
    };
    proof {
        assert(is_bin(m2.nodes(), op, ft, gt, t));
        assert(is_bin(m2.nodes(), op, fe, ge, e));
        lemma_adds_bin(
            m0.nodes(),
            m1.nodes(),
            m2.nodes(),
            manager.nodes(),
            m0.levels(),
            op,
            level,
            f,
            ft,
            fe,
            g,
            gt,
            ge,
            t,
            e,
        );
        lemma_extends(m2.nodes(), manager.nodes(), m0.levels());
    }
    manager.cache_add(key, h);
    Ok(h)
}

/// The conjunction of `f` and `g`.
pub(crate) fn apply_and(manager: &mut Manager, depth: u32, f: Edge, g: Edge) -> (r: AllocResult<
    Edge,
>)
    requires
        old(manager).wf(),
        old(manager).has(f),
        old(manager).has(g),
    ensures
        final(manager).wf(),
        old(manager).grows_to(final(manager)),
        match r {
            Ok(h) => {
                let nodes = final(manager).nodes();
                &&& is_bin(nodes, BCDDOp::And, f, g, h)
                &&& level_of(nodes, h) >= level_of(nodes, f) || level_of(nodes, h) >= level_of(
                    nodes,
                    g,
                )
            },
            Err(_) => {
                let nodes = final(manager).nodes();
                &&& final(manager).is_full()
                &&& absent(nodes, bin_fn(nodes, BCDDOp::And, f, g))
            },
        },
        bin_memoised(*old(manager), *final(manager), BCDDOp::And, f, g, false, r),
        adds_parts(
            old(manager).nodes(),
            final(manager).nodes(),
            bin_fn(old(manager).nodes(), BCDDOp::And, f, g),
        ),
{
    apply_bin(manager, BCDDOp::And, depth, f, g)
}

/// Recursively applies the if-then-else operator (`if f { g } else { h }`).
///
/// `depth` is decremented for each recursive call. If it reaches 0, this function simply calls
/// [`apply_rec_st::apply_ite`].
pub(crate) fn apply_ite(
    manager: &mut Manager,
    depth: u32,
    f: Edge,
    g: Edge,
    h: Edge,
) -> (r: AllocResult<Edge>)
    requires
        old(manager).wf(),
        old(manager).has(f),
        old(manager).has(g),
        old(manager).has(h),
    ensures
        final(manager).wf(),
        old(manager).grows_to(final(manager)),
        match r {
            Ok(r) => {
                let nodes = final(manager).nodes();
                &&& is_ite(nodes, f, g, h, r)
                &&& level_of(nodes, r) >= level_of(nodes, f) || level_of(nodes, r) >= level_of(
                    nodes,
                    g,
                ) || level_of(nodes, r) >= level_of(nodes, h)
            },
            Err(_) => {
                let nodes = final(manager).nodes();
                &&& final(manager).is_full()
                &&& absent(nodes, ite_fn(nodes, f, g, h))
            },
        },
        is_inner(f) && is_inner(g) && is_inner(h) && f.node != g.node && f.node != h.node && g.node
            != h.node ==> memoised(*old(manager), *final(manager), ite_key(f, g, h), r),
        adds_parts(
            old(manager).nodes(),
            final(manager).nodes(),
            ite_fn(old(manager).nodes(), f, g, h),
        ),
    decreases f.node + g.node + h.node,
{
    let ghost n0 = manager.nodes();
    proof {
        lemma_adds_none(n0);
        lemma_negation(n0);
    }
    if depth == 0 {
        return apply_rec_st::apply_ite(manager, f, g, h);
    }
    // Terminal cases
    if g.node == h.node {
        return if g.tag == h.tag {
            Ok(g)
        } else {
            // f <-> g
            let r = negate(apply_bin(manager, BCDDOp::Xor, depth, f, g));
            proof {
                lemma_negation(manager.nodes());
                assert(h == g.flipped(true));
                if r is Err {
                    lemma_absent_ite_as_bin(
                        manager.nodes(),
                        f,
                        g,
                        h,
                        BCDDOp::Xor,
                        f,
                        g,
                        true,
                    );
                }
                lemma_adds_ite_as_bin(
                    n0,
                    manager.nodes(),
                    f,
                    g,
                    h,
                    BCDDOp::Xor,
                    f,
                    g,
                    true,
                );
            }
            r
        };
    }
    if f.node == g.node {
        return if f.tag == g.tag {
            // f or h
            let r = negate(apply_and(manager, depth, not(f), not(h)));
            proof {
                lemma_negation(manager.nodes());
                if r is Err {
                    lemma_absent_ite_as_bin(
                        manager.nodes(),
                        f,
                        g,
                        h,
                        BCDDOp::And,
                        f.flipped(true),
                        h.flipped(true),
                        true,
                    );
                }
                lemma_adds_ite_as_bin(
                    n0,
                    manager.nodes(),
                    f,
                    g,
                    h,
                    BCDDOp::And,
                    f.flipped(true),
                    h.flipped(true),
                    true,
                );
            }
            r
        } else {
            // f < h
            let r = apply_and(manager, depth, not(f), h);
            proof {
                lemma_negation(manager.nodes());
                assert(g == f.flipped(true));
                if r is Err {
                    lemma_absent_ite_as_bin(
                        manager.nodes(),
                        f,
                        g,
                        h,
                        BCDDOp::And,
                        f.flipped(true),
                        h,
                        false,
                    );
                }
                lemma_adds_ite_as_bin(
                    n0,
                    manager.nodes(),
                    f,
                    g,
                    h,
                    BCDDOp::And,
                    f.flipped(true),
                    h,
                    false,
                );
            }
            r
        };
    }
    if f.node == h.node {
        return if f.tag == h.tag {
            let r = apply_and(manager, depth, f, g);
            proof {
                if r is Err {
                    lemma_absent_ite_as_bin(
                        manager.nodes(),
                        f,
                        g,
                        h,
                        BCDDOp::And,
                        f,
                        g,
                        false,
                    );
                }
                lemma_adds_ite_as_bin(
                    n0,
                    manager.nodes(),
                    f,
                    g,
                    h,
                    BCDDOp::And,
                    f,
                    g,
                    false,
                );
            }
            r
        } else {
            // f -> g
            let r = negate(apply_and(manager, depth, f, not(g)));
            proof {
                lemma_negation(manager.nodes());
                assert(h == f.flipped(true));
                if r is Err {
                    lemma_absent_ite_as_bin(
                        manager.nodes(),
                        f,
                        g,
                        h,
                        BCDDOp::And,
                        f,
                        g.flipped(true),
                        true,
                    );
                }
                lemma_adds_ite_as_bin(
                    n0,
                    manager.nodes(),
                    f,
                    g,
                    h,
                    BCDDOp::And,
                    f,
                    g.flipped(true),
                    true,
                );
            }
            r
        };
    }
    let fnode = match manager.get_node(f) {
        Node::Inner(n) => n,
        Node::Terminal => return Ok(
            if f.tag == EdgeTag::Regular {
                g
            } else {
                h
            },
        ),
    };
    let (gnode, hnode) = match (manager.get_node(g), manager.get_node(h)) {
        (Node::Inner(gnode), Node::Inner(hnode)) => (gnode, hnode),
        (Node::Terminal, _) => {
            return if g.tag == EdgeTag::Regular {
                // f or h
                let r = negate(apply_and(manager, depth, not(f), not(h)));
                proof {
                    lemma_negation(manager.nodes());
                    if r is Err {
                        lemma_absent_ite_as_bin(
                            manager.nodes(),
                            f,
                            g,
                            h,
                            BCDDOp::And,
                            f.flipped(true),
                            h.flipped(true),
                            true,
                        );
                    }
                    lemma_adds_ite_as_bin(
                        n0,
                        manager.nodes(),
                        f,
                        g,
                        h,
                        BCDDOp::And,
                        f.flipped(true),
                        h.flipped(true),
                        true,
                    );
                }
                r
            } else {
                // f < h
                let r = apply_and(manager, depth, not(f), h);
                proof {
                    lemma_negation(manager.nodes());
                    if r is Err {
                        lemma_absent_ite_as_bin(
                            manager.nodes(),
                            f,
                            g,
                            h,
                            BCDDOp::And,
                            f.flipped(true),
                            h,
                            false,
                        );
                    }
                    lemma_adds_ite_as_bin(
                        n0,
                        manager.nodes(),
                        f,
                        g,
                        h,
                        BCDDOp::And,
                        f.flipped(true),
                        h,
                        false,
                    );
                }
                r
            };
        },
        (Node::Inner(_), Node::Terminal) => {
            return if h.tag == EdgeTag::Regular {
                // f -> g
                let r = negate(apply_and(manager, depth, f, not(g)));
                proof {
                    lemma_negation(manager.nodes());
                    if r is Err {
                        lemma_absent_ite_as_bin(
                            manager.nodes(),
                            f,
                            g,
                            h,
                            BCDDOp::And,
                            f,
                            g.flipped(true),
                            true,
                        );
                    }
                    lemma_adds_ite_as_bin(
                        n0,
                        manager.nodes(),
                        f,
                        g,
                        h,
                        BCDDOp::And,
                        f,
                        g.flipped(true),
                        true,
                    );
                }
                r
            } else {
                let r = apply_and(manager, depth, f, g);
                proof {
                    if r is Err {
                        lemma_absent_ite_as_bin(
                            manager.nodes(),
                            f,
                            g,
                            h,
                            BCDDOp::And,
                            f,
                            g,
                            false,
                        );
                    }
                    lemma_adds_ite_as_bin(
                        n0,
                        manager.nodes(),
                        f,
                        g,
                        h,
                        BCDDOp::And,
                        f,
                        g,
                        false,
                    );
                }
                r
            };
        },
    };

    let key = BCDDKey { op: BCDDOp::Ite, f, g, h, num: 0 };
    match manager.cache_get(key) {
        Some(r) => return Ok(r),
        None => {},
    }

    let level: LevelNo = min_level(min_level(fnode.level, gnode.level), hnode.level);
    let (ft, fe) = cofactors_at(manager, f, fnode, level);
    let (gt, ge) = cofactors_at(manager, g, gnode, level);
    let (ht, he) = cofactors_at(manager, h, hnode, level);
    let ghost m0 = *manager;

    let d: u32 = depth - 1;
    let rt = apply_ite(manager, d, ft, gt, ht);
    let ghost m1 = *manager;
    proof {
        lemma_extends(m0.nodes(), m1.nodes(), m0.levels());
    }
    let re = apply_ite(manager, d, fe, ge, he);
    let ghost m2 = *manager;
    proof {
        lemma_extends(m1.nodes(), m2.nodes(), m0.levels());
    }
    let (t, e) = match both(rt, re) {
        Ok(te) => te,
        Err(err) => {
            proof {
                if rt is Err {
                    lemma_full(&m1, &m2);
                }
                lemma_absent_ite(
                    m0.nodes(),
                    manager.nodes(),
                    m0.levels(),
                    level,
                    f,
                    ft,
                    fe,
                    g,
                    gt,
                    ge,
                    h,
                    ht,
                    he,
                );
                lemma_adds_ite(
                    m0.nodes(),
                    m1.nodes(),
                    manager.nodes(),
                    manager.nodes(),
                    m0.levels(),
                    level,
                    f,
                    ft,
                    fe,
                    g,
                    gt,
                    ge,
                    h,
                    ht,
                    he,
                    f,
                    f,
                );
            }
            return Err(err);
        },
    };
    let r = match reduce(manager, level, t, e) {
        Ok(r) => r,
        Err(err) => {
            proof {
                let nodes = manager.nodes();
                assert(denotes(nodes, t, ite_fn(nodes, ft, gt, ht)));
                assert(denotes(nodes, e, ite_fn(nodes, fe, ge, he)));
                lemma_absent_ite(
                    m0.nodes(),
                    manager.nodes(),
                    m0.levels(),
                    level,
                    f,
                    ft,
                    fe,
                    g,
                    gt,
                    ge,
                    h,
                    ht,
                    he,
                );
                lemma_adds_ite(
                    m0.nodes(),
                    m1.nodes(),
                    m2.nodes(),
                    manager.nodes(),
                    m0.levels(),
                    level,
                    f,
                    ft,
                    fe,
                    g,
                    gt,
                    ge,
                    h,
                    ht,
                    he,
                    f,
                    f,
                );
            }
            return Err(err);
        },
    };
    proof {
        assert(is_ite(m2.nodes(), ft, gt, ht, t));
        assert(is_ite(m2.nodes(), fe, ge, he, e));
        lemma_adds_ite(
            m0.nodes(),
            m1.nodes(),
            m2.nodes(),
            manager.nodes(),
            m0.levels(),
            level,
            f,
            ft,
            fe,
            g,
            gt,
            ge,
            h,
            ht,
            he,
            t,
            e,
        );
        lemma_extends(m2.nodes(), manager.nodes(), m0.levels());
    }
    manager.cache_add(key, r);
    Ok(r)
}

/// Recursively substitutes `subst[l]` for the variable at each level `l`, where `subst` represents
/// the substitution registered as `cache_id`.
///
/// `depth` is decremented for each recursive call. If it reaches 0, this function simply calls
/// [`apply_rec_st::substitute`].
pub(crate) fn substitute(
    manager: &mut Manager,
    depth: u32,
    f: Edge,
    subst: &[Edge],
    cache_id: u32,
) -> (r: AllocResult<Edge>)
    requires
        old(manager).wf(),
        old(manager).has(f),
        is_inner(f) && level_of(old(manager).nodes(), f) < subst@.len() ==> is_registered(
            *old(manager),
            subst@,
            cache_id,
        ),
    ensures
        final(manager).wf(),
        old(manager).grows_to(final(manager)),
        match r {
            Ok(r) => final(manager).has(r) && (is_registered(*old(manager), subst@, cache_id)
                ==> is_substituted(
                final(manager).nodes(),
                old(manager).substitutions()[cache_id],
                f,
                r,
            )),
            Err(_) => final(manager).is_full() && lacks_substituted(
                final(manager).nodes(),
                old(manager).substitutions()[cache_id],
                f,
            ),
        },
        level_of(old(manager).nodes(), f) >= subst@.len() ==> r == Ok::<Edge, OutOfMemory>(f),
        !is_inner(f) ==> r == Ok::<Edge, OutOfMemory>(f),
        is_inner(f) && level_of(old(manager).nodes(), f) < subst@.len() ==> memoised(
            *old(manager),
            *final(manager),
            subst_key(f, cache_id),
            r,
        ),
    decreases f.node,
{
    if depth == 0 {
        return apply_rec_st::substitute(manager, f, subst, cache_id);
    }
    let ghost m = manager.substitutions()[cache_id];
    let node = match manager.get_node(f) {
        Node::Inner(n) => n,
        Node::Terminal => return Ok(f),
    };
    let level: LevelNo = node.level;
    if level as usize >= subst.len() {
        proof {
            if is_registered(*manager, subst@, cache_id) {
                lemma_subst_below(manager.nodes(), manager.levels(), subst@, m, f);
            }
        }
        return Ok(f);
    }

    let key = BCDDKey {
        op: BCDDOp::Substitute,
        f,
        g: get_terminal(true),
        h: get_terminal(true),
        num: cache_id,
    };
    match manager.cache_get(key) {
        Some(h) => return Ok(h),
        None => {},
    }

    let ghost m0 = *manager;
    proof {
        lemma_cofactors(m0.nodes(), m0.levels(), f);
    }
    let (ft, fe) = collect_cofactors(f.tag, node);
    let d: u32 = depth - 1;
    let rt = substitute(manager, d, ft, subst, cache_id);
    let ghost m1 = *manager;
    proof {
        lemma_extends(m0.nodes(), m1.nodes(), m0.levels());
        lemma_represents_extends(m0.nodes(), m1.nodes(), m0.levels(), subst@, m);
    }
    let re = substitute(manager, d, fe, subst, cache_id);
    let ghost m2 = *manager;
    proof {
        lemma_extends(m1.nodes(), m2.nodes(), m0.levels());
        lemma_represents_extends(m1.nodes(), m2.nodes(), m0.levels(), subst@, m);
    }
    let (t, e) = match both(rt, re) {
        Ok(te) => te,
        Err(err) => {
            proof {
                if rt is Err {
                    lemma_full(&m1, &m2);
                }
                lemma_lacks_substituted(m0.nodes(), manager.nodes(), m0.levels(), m, f);
            }
            return Err(err);
        },
    };
    let r = match apply_ite(manager, d, subst[level as usize], t, e) {
        Ok(r) => r,
        Err(err) => {
            proof {
                lemma_substituted_decision(
                    m0.nodes(),
                    m1.nodes(),
                    m2.nodes(),
                    manager.nodes(),
                    m0.levels(),
                    subst@,
                    m,
                    f,
                    t,
                    e,
                );
                assert(part_of(manager.nodes(), f, f));
            }
            return Err(err);
        },
    };
    proof {
        lemma_substituted_decision(
            m0.nodes(),
            m1.nodes(),
            m2.nodes(),
            manager.nodes(),
            m0.levels(),
            subst@,
            m,
            f,
            t,
            e,
        );
    }
    manager.cache_add(key, r);
    Ok(r)
}

/// Recursively restricts the variables of the cube `vars` to its literals.
///
/// `depth` is decremented for each recursive call. If it reaches 0, this function simply calls
/// [`apply_rec_st::restrict`].
pub(crate) fn restrict(manager: &mut Manager, depth: u32, f: Edge, vars: Edge) -> (r: AllocResult<
    Edge,
>)
    requires
        old(manager).wf(),
        old(manager).has(f),
        old(manager).has(vars),
        is_inner(f) ==> is_cube(old(manager).nodes(), vars),
    ensures
        final(manager).wf(),
        old(manager).grows_to(final(manager)),
        match r {
            Ok(r) => {
                let nodes = final(manager).nodes();
                &&& is_restricted(nodes, f, vars, r)
                &&& level_of(nodes, r) >= level_of(nodes, f)
            },
            Err(_) => {
                let nodes = final(manager).nodes();
                &&& final(manager).is_full()
                &&& absent(nodes, restrict_fn(nodes, f, vars))
            },
        },
        !is_inner(f) || !is_inner(vars) ==> r == Ok::<Edge, OutOfMemory>(f),
        is_inner(f) && is_inner(vars) && level_of(old(manager).nodes(), f) < level_of(
            old(manager).nodes(),
            vars,
        ) ==> memoised(
            *old(manager),
            *final(manager),
            restrict_key(f, vars),
            flipped_result(r, f.tag == EdgeTag::Complemented),
        ),
        adds_parts(
            old(manager).nodes(),
            final(manager).nodes(),
            restrict_fn(old(manager).nodes(), f, vars),
        ),
    decreases f.node,
{
    proof {
        lemma_adds_none(manager.nodes());
    }
    if depth == 0 {
        return apply_rec_st::restrict(manager, f, vars);
    }
    let (fnode, vnode) = match (manager.get_node(f), manager.get_node(vars)) {
        (Node::Inner(fnode), Node::Inner(vnode)) => (fnode, vnode),
        _ => return Ok(f),
    };
    let f_neg = f.tag == EdgeTag::Complemented;
    let vars_neg = vars.tag == EdgeTag::Complemented;
    assert(signed(f, f_neg) == f);
    assert(signed(vars, vars_neg) == vars);
    let ghost f0 = f;
    let ghost vars0 = vars;
    match restrict_inner(manager, f, f_neg, fnode, fnode.level, vars, vars_neg, vnode) {
        RestrictInnerResult::Done(result) => Ok(result),
        RestrictInnerResult::Rec { vars, f, f_neg, fnode } => {
            let f_untagged = f.with_tag(EdgeTag::Regular);
            let f_tag = EdgeTag::from_neg(f_neg);
            let ghost m0 = *manager;
            let key = BCDDKey {
                op: BCDDOp::Restrict,
                f: f_untagged,
                g: vars,
                h: get_terminal(true),
                num: 0,
            };
            match manager.cache_get(key) {
                Some(result) => {
                    proof {
                        lemma_restrict_tag(
                            m0.nodes(),
                            m0.nodes(),
                            m0.levels(),
                            f0,
                            vars0,
                            f_untagged,
                            f_neg,
                            vars,
                            result,
                        );
                    }
                    return Ok(result.xor_tag(f_tag));
                },
                None => {},
            }
            proof {
                lemma_cofactors(m0.nodes(), m0.levels(), f_untagged);
                assert(signed(f_untagged, f_neg) == f_untagged.flipped(f_neg));
                assert(then_of(m0.nodes(), f_untagged) == fnode.t);
                assert(else_of(m0.nodes(), f_untagged) == fnode.e);
            }
            let d: u32 = depth - 1;
            let rt = restrict(manager, d, fnode.t, vars);
            let ghost m1 = *manager;
            proof {
                lemma_extends(m0.nodes(), m1.nodes(), m0.levels());
                lemma_cube_extends(m0.nodes(), m1.nodes(), m0.levels(), vars);
            }
            let re = restrict(manager, d, fnode.e, vars);
            let ghost m2 = *manager;
            proof {
                lemma_extends(m1.nodes(), m2.nodes(), m0.levels());
            }
            let (t, e) = match both(rt, re) {
                Ok(te) => te,
                Err(err) => {
                    proof {
                        if rt is Err {
                            lemma_full(&m1, &m2);
                        }
                        lemma_absent_restrict_step(
                            m0.nodes(),
                            manager.nodes(),
                            m0.levels(),
                            f0,
                            vars0,
                            f_untagged,
                            f_neg,
                            vars,
                        );
                        lemma_adds_restrict(
                            m0.nodes(),
                            m1.nodes(),
                            manager.nodes(),
                            manager.nodes(),
                            m0.levels(),
                            f0,
                            vars0,
                            f_untagged,
                            f_neg,
                            vars,
                            f0,
                            f0,
                        );
                    }
                    return Err(err);
                },
            };
            let result = match reduce(manager, fnode.level, t, e) {
                Ok(result) => result,
                Err(err) => {
                    proof {
                        let nodes = manager.nodes();
                        lemma_restrict_denotes(m1.nodes(), nodes, m0.levels(), fnode.t, vars, t);
                        lemma_restrict_denotes(m2.nodes(), nodes, m0.levels(), fnode.e, vars, e);
                        lemma_absent_restrict_step(
                            m0.nodes(),
                            manager.nodes(),
                            m0.levels(),
                            f0,
                            vars0,
                            f_untagged,
                            f_neg,
                            vars,
                        );
                        lemma_adds_restrict(
                            m0.nodes(),
                            m1.nodes(),
                            m2.nodes(),
                            manager.nodes(),
                            m0.levels(),
                            f0,
                            vars0,
                            f_untagged,
                            f_neg,
                            vars,
                            f0,
                            f0,
                        );
                    }
                    return Err(err);
                },
            };
            proof {
                lemma_adds_restrict(
                    m0.nodes(),
                    m1.nodes(),
                    m2.nodes(),
                    manager.nodes(),
                    m0.levels(),
                    f0,
                    vars0,
                    f_untagged,
                    f_neg,
                    vars,
                    t,
                    e,
                );
                lemma_extends(m2.nodes(), manager.nodes(), m0.levels());
                lemma_restricted_decision(
                    m0.nodes(),
                    m1.nodes(),
                    m2.nodes(),
                    manager.nodes(),
                    m0.levels(),
                    f_untagged,
                    vars,
                    t,
                    e,
                    result,
                );
                lemma_restrict_tag(
                    m0.nodes(),
                    manager.nodes(),
                    m0.levels(),
                    f0,
                    vars0,
                    f_untagged,
                    f_neg,
                    vars,
                    result,
                );
            }
            manager.cache_add(key, result);
            Ok(result.xor_tag(f_tag))
        },
    }
}

/// Recursively computes the quantification `op` of `f` over the variables of the set `vars`.
///
/// `depth` is decremented for each recursive call. If it reaches 0, this function simply calls
/// [`apply_rec_st::quant`].
#[verifier::rlimit(80)]
#[verifier::spinoff_prover]
pub(crate) fn quant(
    manager: &mut Manager,
    op: BCDDOp,
    depth: u32,
    f: Edge,
    vars: Edge,
) -> (r: AllocResult<Edge>)
    requires
        old(manager).wf(),
        old(manager).has(f),
        old(manager).has(vars),
        is_quantifier(op),
    ensures
        final(manager).wf(),
        old(manager).grows_to(final(manager)),
        match r {
            Ok(r) => {
                let nodes = final(manager).nodes();
                &&& is_quantified(nodes, op, f, vars, r)
                &&& level_of(nodes, r) >= level_of(nodes, f)
            },
            Err(_) => {
                let nodes = final(manager).nodes();
                &&& final(manager).is_full()
                &&& lacks_quantified(nodes, op, f, var_set(nodes, vars))
            },
        },
        quant_trivial(old(manager).nodes(), op, f, vars) matches Some(e) ==> r == Ok::<
            Edge,
            OutOfMemory,
        >(e),
        quant_trivial(old(manager).nodes(), op, f, vars) is None ==> memoised(
            *old(manager),
            *final(manager),
            quant_key(old(manager).nodes(), op, f, vars),
            r,
        ),
    decreases f.node,
{
    if depth == 0 {
        return apply_rec_st::quant(manager, op, f, vars);
    }
    let ghost m0 = *manager;
    proof {
        lemma_quant_trivial(m0.nodes(), m0.levels(), op, f, vars);
    }
    // Terminal cases
    let fnode = match manager.get_node(f) {
        Node::Inner(n) => n,
        Node::Terminal => {
            proof {
                lemma_quantified_constant(m0.nodes(), m0.levels(), op, f, vars);
            }
            return Ok(
                if op != BCDDOp::Unique || vars.node == 0 {
                    f
                } else {
                    // exclusive disjunction of twice the same
                    get_terminal(false)
                },
            );
        },
    };
    let flevel: LevelNo = fnode.level;
    let ghost vars0 = vars;
    let vars = quant_pop(manager, op, f, vars, flevel);
    let ghost vs0 = var_set(m0.nodes(), vars0);
    let ghost k0 = choose|k: int|
        #![trigger vs0.skip(k)]
        0 <= k <= vs0.len() && var_set(m0.nodes(), vars) == vs0.skip(k);
    let vnode = match manager.get_node(vars) {
        Node::Inner(n) => n,
        Node::Terminal => return Ok(f),
    };
    let vlevel: LevelNo = vnode.level;
    if op == BCDDOp::Unique && vlevel < flevel {
        // The variable does not occur in `f`.
        proof {
            lemma_unique_above(m0.nodes(), m0.levels(), f, vars);
        }
        return Ok(get_terminal(false));
    }

    let key = BCDDKey { op, f, g: vars, h: get_terminal(true), num: 0 };
    match manager.cache_get(key) {
        Some(r) => return Ok(r),
        None => {},
    }

    proof {
        lemma_cofactors(m0.nodes(), m0.levels(), f);
        lemma_cofactors(m0.nodes(), m0.levels(), vars);
    }
    let (ft, fe) = collect_cofactors(f.tag, fnode);
    let ghost k1 = if vlevel == flevel {
        k0 + 1
    } else {
        k0
    };
    let vt = if vlevel == flevel {
        vnode.t
    } else {
        vars
    };
    proof {
        lemma_var_set_below(m0.nodes(), m0.levels(), vars);
        assert(vs0.skip(k0).drop_first() =~= vs0.skip(k0 + 1));
        assert(var_set(m0.nodes(), vt) == vs0.skip(k1));
    }
    let d: u32 = depth - 1;
    let rt = quant(manager, op, d, ft, vt);
    let ghost m1 = *manager;
    proof {
        lemma_extends(m0.nodes(), m1.nodes(), m0.levels());
    }
    let re = quant(manager, op, d, fe, vt);
    let ghost m2 = *manager;
    proof {
        lemma_extends(m1.nodes(), m2.nodes(), m0.levels());
    }
    let (t, e) = match both(rt, re) {
        Ok(te) => te,
        Err(err) => {
            proof {
                if rt is Err {
                    lemma_full(&m1, &m2);
                }
                lemma_lacks_cofactor(
                    m0.nodes(),
                    manager.nodes(),
                    m0.levels(),
                    op,
                    f,
                    vars0,
                    vt,
                    k1,
                );
            }
            return Err(err);
        },
    };
    let combined = if flevel == vlevel {
        match op {
            BCDDOp::Forall => apply_and(manager, d, t, e),
            BCDDOp::Exist => negate(apply_and(manager, d, not(t), not(e))),
            _ => apply_bin(manager, BCDDOp::Xor, d, t, e),
        }
    } else {
        reduce(manager, flevel, t, e)
    };
    proof {
        lemma_negation(manager.nodes());
        lemma_extends(m2.nodes(), manager.nodes(), m0.levels());
        lemma_quantified_decision(
            m0.nodes(),
            m1.nodes(),
            m2.nodes(),
            manager.nodes(),
            m0.levels(),
            op,
            f,
            vars,
            t,
            e,
        );
    }
    let r = match combined {
        Ok(r) => r,
        Err(err) => {
            proof {
                let nodes = manager.nodes();
                lemma_absent_combined(nodes, m0.levels(), op, flevel == vlevel, flevel, t, e);
                lemma_var_set_extends(m0.nodes(), nodes, m0.levels(), vars0);
                lemma_lacks_quantified(m0.nodes(), nodes, m0.levels(), op, f, vs0, k0);
            }
            return Err(err);
        },
    };
    proof {
        assert(denotes(
            manager.nodes(),
            r,
            combined_fn(manager.nodes(), op, flevel == vlevel, flevel, t, e),
        ));
        lemma_popped_extends(m0.nodes(), manager.nodes(), m0.levels(), op, f, vars0, vars);
    }
    manager.cache_add(key, r);
    Ok(r)
}

/// The outcome of an operation that computes the Boolean function `value`: the edge for that
/// function, or an error because the store is full and does not hold the function. The nodes that are
/// added stand for what the function becomes once the variables above some level have values (or for
/// the negation of that). All edges keep their meaning.
pub open spec fn result_of(
    before: Manager,
    after: Manager,
    r: AllocResult<Edge>,
    value: spec_fn(Set<LevelNo>) -> bool,
) -> bool {
    &&& result_or_full(before, after, r, value)
    &&& r is Err ==> absent(after.nodes(), value)
    &&& adds_parts(before.nodes(), after.nodes(), value)
}

/// The outcome of an operation that computes the Boolean function `value` and adds nodes, also for
/// intermediate results: the edge for that function, or an error because the store is full. All edges
/// keep their meaning.
pub open spec fn result_or_full(
    before: Manager,
    after: Manager,
    r: AllocResult<Edge>,
    value: spec_fn(Set<LevelNo>) -> bool,
) -> bool {
    &&& after.wf()
    &&& before.grows_to(&after)
    &&& match r {
        Ok(h) => {
            &&& after.has(h)
            &&& forall|env: Set<LevelNo>| #[trigger] eval(after.nodes(), h, env) == value(env)
        },
        Err(_) => after.is_full(),
    }
}

/// The quantified function is the same before and after nodes are added.
proof fn lemma_quantified_before(
    a: Seq<InnerNode>,
    b: Seq<InnerNode>,
    levels: LevelNo,
    op: BCDDOp,
    f: Edge,
    vars: Edge,
)
    requires
        is_diagram(a, levels),
        extends(a, b),
        valid(a, f),
        valid(a, vars),
    ensures
        forall|env: Set<LevelNo>| #[trigger]
            quantify(op, b, f, var_set(b, vars), env) == quantify(op, a, f, var_set(a, vars), env),
{
    lemma_var_set_extends(a, b, levels, vars);
    assert forall|env: Set<LevelNo>| #[trigger]
        quantify(op, b, f, var_set(b, vars), env) == quantify(op, a, f, var_set(a, vars), env) by {
        lemma_quantify_extends(a, b, levels, op, f, var_set(a, vars), env);
    }
}

/// Boolean function backed by a binary decision diagram with complement edges, around the handle
/// `F` of that function.
#[derive(Clone, PartialEq, Eq, PartialOrd, Ord, Hash, Debug)]
pub struct BCDDFunctionMT<F>(F);

impl<F> From<F> for BCDDFunctionMT<F> {
    fn from(value: F) -> (f: Self) {
        BCDDFunctionMT(value)
    }
}

impl<F> vstd::std_specs::convert::FromSpecImpl<F> for BCDDFunctionMT<F> {
    open spec fn obeys_from_spec() -> bool {
        true
    }

    closed spec fn from_spec(value: F) -> Self {
        BCDDFunctionMT(value)
    }
}

impl<F> BCDDFunctionMT<F> {
    /// The underlying handle.
    pub closed spec fn inner(self) -> F {
        self.0
    }

    /// Wrapping a handle and taking it out again yields that handle.
    pub proof fn lemma_from_inner(value: F)
        ensures
            <BCDDFunctionMT<F> as vstd::std_specs::convert::FromSpec<F>>::from_spec(value).inner()
                == value,
    {
    }

    /// Taking the handle out and wrapping it again yields the same function.
    pub proof fn lemma_inner_from(self)
        ensures
            <BCDDFunctionMT<F> as vstd::std_specs::convert::FromSpec<F>>::from_spec(self.inner())
                == self,
    {
    }

    /// Converts `self` into the underlying handle.
    pub fn into_inner(self) -> (f: F)
        ensures
            f == self.inner(),
    {
        self.0
    }
}

impl BCDDFunctionMT<Edge> {
    /// The depth down to which the work is split: such that there are about 4096 parts for each
    /// thread, or not at all if there is only one thread.
    pub fn init_depth(manager: &Manager) -> (d: u32)
        ensures
            manager.threads() <= 1 ==> d == 0,
            manager.threads() > 1 ==> pow2(d as nat) <= 4096 * manager.threads() < pow2(
                (d + 1) as nat,
            ),
    {
        let n: u64 = manager.current_num_threads() as u64;
        if n > 1 {
            ilog2(4096 * n)
        } else {
            0
        }
    }

    /// Adds a variable below all others and returns its function.
    pub fn new_var(manager: &mut Manager) -> (r: AllocResult<Self>)
        requires
            old(manager).wf(),
            old(manager).levels() < LevelNo::MAX,
        ensures
            final(manager).wf(),
            extends(old(manager).nodes(), final(manager).nodes()),
            final(manager).capacity() == old(manager).capacity(),
            final(manager).threads() == old(manager).threads(),
            final(manager).substitutions() == old(manager).substitutions(),
            r is Err <==> old(manager).is_full(),
            match r {
                Ok(var) => {
                    &&& final(manager).levels() == old(manager).levels() + 1
                    &&& final(manager).has(var.inner())
                    &&& is_inner(var.inner())
                    &&& !var.inner().neg()
                    &&& node_of(final(manager).nodes(), var.inner()) == variable_node(
                        old(manager).levels(),
                    )
                    &&& final(manager).nodes() == old(manager).nodes().push(
                        variable_node(old(manager).levels()),
                    )
                    &&& forall|env: Set<LevelNo>| #[trigger]
                        eval(final(manager).nodes(), var.inner(), env) == env.contains(
                            old(manager).levels(),
                        )
                },
                Err(_) => {
                    &&& final(manager).levels() == old(manager).levels()
                    &&& final(manager).nodes() == old(manager).nodes()
                },
            },
    {
        let t = get_terminal(true);
        let e = get_terminal(false);
        match manager.add_level(t, e) {
            Ok(edge) => {
                proof {
                    lemma_cofactors(manager.nodes(), manager.levels(), edge);
                }
                Ok(BCDDFunctionMT(edge))
            },
            Err(err) => Err(err),
        }
    }

    /// The edge for "false".
    pub fn f_edge(manager: &Manager) -> (r: Edge)
        ensures
            r == Edge::constant(false),
            manager.has(r),
            forall|env: Set<LevelNo>| !#[trigger] eval(manager.nodes(), r, env),
    {
        get_terminal(false)
    }

    /// The edge for "true".
    pub fn t_edge(manager: &Manager) -> (r: Edge)
        ensures
            r == Edge::constant(true),
            manager.has(r),
            forall|env: Set<LevelNo>| #[trigger] eval(manager.nodes(), r, env),
    {
        get_terminal(true)
    }

    /// Negation of `edge`; needs no new node.
    pub fn not_edge(manager: &Manager, edge: &Edge) -> (r: AllocResult<Edge>)
        requires
            manager.has(*edge),
        ensures
            r matches Ok(h) && manager.has(h) && h == edge.flipped(true) && (forall|
                env: Set<LevelNo>,
            | #[trigger]
                eval(manager.nodes(), h, env) == !manager.eval(*edge, env)),
    {
        proof {
            lemma_negation(manager.nodes());
        }
        Ok(not(*edge))
    }

    /// Negation of `edge`, which is handed over; needs no new node.
    pub fn not_edge_owned(manager: &Manager, edge: Edge) -> (r: AllocResult<Edge>)
        requires
            manager.has(edge),
        ensures
            r matches Ok(h) && manager.has(h) && h == edge.flipped(true) && (forall|
                env: Set<LevelNo>,
            | #[trigger]
                eval(manager.nodes(), h, env) == !manager.eval(edge, env)),
    {
        proof {
            lemma_negation(manager.nodes());
        }
        Ok(not(edge))
    }

    /// Conjunction `lhs` and `rhs`.
    pub fn and_edge(manager: &mut Manager, lhs: &Edge, rhs: &Edge) -> (r: AllocResult<Edge>)
        requires
            old(manager).wf(),
            old(manager).has(*lhs),
            old(manager).has(*rhs),
        ensures
            result_of(
                *old(manager),
                *final(manager),
                r,
                |env: Set<LevelNo>| old(manager).eval(*lhs, env) && old(manager).eval(*rhs, env),
            ),
            bin_memoised(*old(manager), *final(manager), BCDDOp::And, *lhs, *rhs, false, r),
    {
        let ghost m0 = *manager;
        let d: u32 = Self::init_depth(manager);
        let r = apply_and(manager, d, *lhs, *rhs);
        proof {
            lemma_extends(m0.nodes(), manager.nodes(), m0.levels());
            lemma_negation(m0.nodes());
            let parts = bin_fn(m0.nodes(), BCDDOp::And, *lhs, *rhs);
            lemma_adds_same(m0.nodes(), manager.nodes(), parts, false);
            lemma_negation(manager.nodes());
        }
        r
    }

    /// Disjunction `lhs` or `rhs`.
    pub fn or_edge(manager: &mut Manager, lhs: &Edge, rhs: &Edge) -> (r: AllocResult<Edge>)
        requires
            old(manager).wf(),
            old(manager).has(*lhs),
            old(manager).has(*rhs),
        ensures
            result_of(
                *old(manager),
                *final(manager),
                r,
                |env: Set<LevelNo>| old(manager).eval(*lhs, env) || old(manager).eval(*rhs, env),
            ),
            bin_memoised(
                *old(manager),
                *final(manager),
                BCDDOp::And,
                lhs.flipped(true),
                rhs.flipped(true),
                true,
                r,
            ),
    {
        let ghost m0 = *manager;
        let d: u32 = Self::init_depth(manager);
        let r = negate(apply_and(manager, d, not(*lhs), not(*rhs)));
        proof {
            lemma_extends(m0.nodes(), manager.nodes(), m0.levels());
            lemma_negation(m0.nodes());
            let parts = bin_fn(m0.nodes(), BCDDOp::And, lhs.flipped(true), rhs.flipped(true));
            lemma_adds_same(m0.nodes(), manager.nodes(), parts, true);
            lemma_negation(manager.nodes());
            if r is Err {
                let nodes = manager.nodes();
                let value = bin_fn(nodes, BCDDOp::And, lhs.flipped(true), rhs.flipped(true));
                lemma_absent_negated(nodes, value, |env: Set<LevelNo>| !value(env));
            }
        }
        r
    }

    /// Negated conjunction of `lhs` and `rhs`.
    pub fn nand_edge(manager: &mut Manager, lhs: &Edge, rhs: &Edge) -> (r: AllocResult<Edge>)
        requires
            old(manager).wf(),
            old(manager).has(*lhs),
            old(manager).has(*rhs),
        ensures
            result_of(
                *old(manager),
                *final(manager),
                r,
                |env: Set<LevelNo>| !(old(manager).eval(*lhs, env) && old(manager).eval(*rhs, env)),
            ),
            bin_memoised(*old(manager), *final(manager), BCDDOp::And, *lhs, *rhs, true, r),
    {
        let ghost m0 = *manager;
        let r = negate(Self::and_edge(manager, lhs, rhs));
        proof {
            lemma_extends(m0.nodes(), manager.nodes(), m0.levels());
            lemma_negation(m0.nodes());
            lemma_adds_negated(m0.nodes(), manager.nodes());
            lemma_negation(manager.nodes());
            if r is Err {
                let nodes = manager.nodes();
                let value = bin_fn(nodes, BCDDOp::And, *lhs, *rhs);
                lemma_absent_negated(nodes, value, |env: Set<LevelNo>| !value(env));
            }
        }
        r
    }

    /// Negated disjunction of `lhs` and `rhs`.
    pub fn nor_edge(manager: &mut Manager, lhs: &Edge, rhs: &Edge) -> (r: AllocResult<Edge>)
        requires
            old(manager).wf(),
            old(manager).has(*lhs),
            old(manager).has(*rhs),
        ensures
            result_of(
                *old(manager),
                *final(manager),
                r,
                |env: Set<LevelNo>| !(old(manager).eval(*lhs, env) || old(manager).eval(*rhs, env)),
            ),
            bin_memoised(
                *old(manager),
                *final(manager),
                BCDDOp::And,
                lhs.flipped(true),
                rhs.flipped(true),
                false,
                r,
            ),
    {
        let ghost m0 = *manager;
        let d: u32 = Self::init_depth(manager);
        let r = apply_and(manager, d, not(*lhs), not(*rhs));
        proof {
            lemma_extends(m0.nodes(), manager.nodes(), m0.levels());
            lemma_negation(m0.nodes());
            let parts = bin_fn(m0.nodes(), BCDDOp::And, lhs.flipped(true), rhs.flipped(true));
            lemma_adds_same(m0.nodes(), manager.nodes(), parts, false);
            lemma_negation(manager.nodes());
        }
        r
    }

    /// Exclusive disjunction of `lhs` and `rhs`.
    pub fn xor_edge(manager: &mut Manager, lhs: &Edge, rhs: &Edge) -> (r: AllocResult<Edge>)
        requires
            old(manager).wf(),
            old(manager).has(*lhs),
            old(manager).has(*rhs),
        ensures
            result_of(
                *old(manager),
                *final(manager),
                r,
                |env: Set<LevelNo>| old(manager).eval(*lhs, env) != old(manager).eval(*rhs, env),
            ),
            bin_memoised(*old(manager), *final(manager), BCDDOp::Xor, *lhs, *rhs, false, r),
    {
        let ghost m0 = *manager;
        let d: u32 = Self::init_depth(manager);
        let r = apply_bin(manager, BCDDOp::Xor, d, *lhs, *rhs);
        proof {
            lemma_extends(m0.nodes(), manager.nodes(), m0.levels());
            lemma_negation(m0.nodes());
            let parts = bin_fn(m0.nodes(), BCDDOp::Xor, *lhs, *rhs);
            lemma_adds_same(m0.nodes(), manager.nodes(), parts, false);
            lemma_negation(manager.nodes());
        }
        r
    }

    /// Equivalence of `lhs` and `rhs`.
    pub fn equiv_edge(manager: &mut Manager, lhs: &Edge, rhs: &Edge) -> (r: AllocResult<Edge>)
        requires
            old(manager).wf(),
            old(manager).has(*lhs),
            old(manager).has(*rhs),
        ensures
            result_of(
                *old(manager),
                *final(manager),
                r,
                |env: Set<LevelNo>| old(manager).eval(*lhs, env) == old(manager).eval(*rhs, env),
            ),
            bin_memoised(*old(manager), *final(manager), BCDDOp::Xor, *lhs, *rhs, true, r),
    {
        let ghost m0 = *manager;
        let r = negate(Self::xor_edge(manager, lhs, rhs));
        proof {
            lemma_extends(m0.nodes(), manager.nodes(), m0.levels());
            lemma_negation(m0.nodes());
            lemma_adds_negated(m0.nodes(), manager.nodes());
            lemma_negation(manager.nodes());
            if r is Err {
                let nodes = manager.nodes();
                let value = bin_fn(nodes, BCDDOp::Xor, *lhs, *rhs);
                lemma_absent_negated(nodes, value, |env: Set<LevelNo>| !value(env));
            }
        }
        r
    }

    /// Implication from `lhs` to `rhs`.
    pub fn imp_edge(manager: &mut Manager, lhs: &Edge, rhs: &Edge) -> (r: AllocResult<Edge>)
        requires
            old(manager).wf(),
            old(manager).has(*lhs),
            old(manager).has(*rhs),
        ensures
            result_of(
                *old(manager),
                *final(manager),
                r,
                |env: Set<LevelNo>| old(manager).eval(*lhs, env) ==> old(manager).eval(*rhs, env),
            ),
            bin_memoised(
                *old(manager),
                *final(manager),
                BCDDOp::And,
                *lhs,
                rhs.flipped(true),
                true,
                r,
            ),
    {
        let ghost m0 = *manager;
        let d: u32 = Self::init_depth(manager);
        let r = negate(apply_and(manager, d, *lhs, not(*rhs)));
        proof {
            lemma_extends(m0.nodes(), manager.nodes(), m0.levels());
            lemma_negation(m0.nodes());
            let parts = bin_fn(m0.nodes(), BCDDOp::And, *lhs, rhs.flipped(true));
            lemma_adds_same(m0.nodes(), manager.nodes(), parts, true);
            lemma_negation(manager.nodes());
            if r is Err {
                let nodes = manager.nodes();
                let value = bin_fn(nodes, BCDDOp::And, *lhs, rhs.flipped(true));
                lemma_absent_negated(nodes, value, |env: Set<LevelNo>| !value(env));
            }
        }
        r
    }

    /// Strict implication: not `lhs`, but `rhs`.
    pub fn imp_strict_edge(manager: &mut Manager, lhs: &Edge, rhs: &Edge) -> (r: AllocResult<Edge>)
        requires
            old(manager).wf(),
            old(manager).has(*lhs),
            old(manager).has(*rhs),
        ensures
            result_of(
                *old(manager),
                *final(manager),
                r,
                |env: Set<LevelNo>| !old(manager).eval(*lhs, env) && old(manager).eval(*rhs, env),
            ),
            bin_memoised(
                *old(manager),
                *final(manager),
                BCDDOp::And,
                lhs.flipped(true),
                *rhs,
                false,
                r,
            ),
    {
        let ghost m0 = *manager;
        let d: u32 = Self::init_depth(manager);
        let r = apply_and(manager, d, not(*lhs), *rhs);
        proof {
            lemma_extends(m0.nodes(), manager.nodes(), m0.levels());
            lemma_negation(m0.nodes());
            let parts = bin_fn(m0.nodes(), BCDDOp::And, lhs.flipped(true), *rhs);
            lemma_adds_same(m0.nodes(), manager.nodes(), parts, false);
            lemma_negation(manager.nodes());
        }
        r
    }

    /// Decision `if if_edge { then_edge } else { else_edge }`.
    pub fn ite_edge(
        manager: &mut Manager,
        if_edge: &Edge,
        then_edge: &Edge,
        else_edge: &Edge,
    ) -> (r: AllocResult<Edge>)
        requires
            old(manager).wf(),
            old(manager).has(*if_edge),
            old(manager).has(*then_edge),
            old(manager).has(*else_edge),
        ensures
            result_of(
                *old(manager),
                *final(manager),
                r,
                |env: Set<LevelNo>|
                    if old(manager).eval(*if_edge, env) {
                        old(manager).eval(*then_edge, env)
                    } else {
                        old(manager).eval(*else_edge, env)
                    },
            ),
            is_inner(*if_edge) && is_inner(*then_edge) && is_inner(*else_edge) && if_edge.node
                != then_edge.node && if_edge.node != else_edge.node && then_edge.node
                != else_edge.node ==> memoised(
                *old(manager),
                *final(manager),
                ite_key(*if_edge, *then_edge, *else_edge),
                r,
            ),
    {
        let ghost m0 = *manager;
        let d: u32 = Self::init_depth(manager);
        let r = apply_ite(manager, d, *if_edge, *then_edge, *else_edge);
        proof {
            lemma_extends(m0.nodes(), manager.nodes(), m0.levels());
            lemma_negation(m0.nodes());
            let parts = ite_fn(m0.nodes(), *if_edge, *then_edge, *else_edge);
            lemma_adds_same(m0.nodes(), manager.nodes(), parts, false);
        }
        r
    }

    /// Counts the assignments to `vars` variables that satisfy `edge`.
    ///
    /// `cache` holds numbers computed by earlier calls for the same diagram.
    pub fn sat_count_edge(
        manager: &Manager,
        edge: &Edge,
        vars: LevelNo,
        cache: &mut SatCountCache,
    ) -> (n: u128)
        requires
            manager.wf(),
            manager.has(*edge),
            valuation::depth(manager.nodes(), *edge) <= vars <= 127,
            old(cache).is_for(manager.nodes()),
        ensures
            n == sat_count(manager.nodes(), *edge, vars as nat),
            final(cache).is_for(manager.nodes()),
            final(cache).vars() == vars,
    {
        valuation::sat_count_edge(manager, *edge, vars, cache)
    }

    /// Picks a conjunction of literals that implies `edge`: `None` if there is none, else the values
    /// of the variables in the order of `order`, or by level if `order` is empty. Where both values
    /// of a variable are possible, `choice` picks one.
    pub fn pick_cube_edge<C: FnMut(&Manager, &Edge) -> bool>(
        manager: &Manager,
        edge: &Edge,
        order: &[Edge],
        choice: C,
    ) -> (r: Option<Vec<Option<bool>>>)
        requires
            manager.wf(),
            manager.has(*edge),
            order@.len() == 0 || order@.len() == manager.levels(),
            forall|k: int|
                0 <= k < order@.len() ==> manager.has(#[trigger] order@[k]) && is_inner(order@[k]),
            forall|x: Edge| #[trigger] manager.has(x) ==> call_requires(choice, (manager, &x)),
        ensures
            r is None <==> *edge == Edge::constant(false),
            r is Some ==> may_pick(manager, *edge, order@, choice, r->0@),
    {
        valuation::pick_cube_edge(manager, *edge, order, choice)
    }

    /// Evaluates `edge` under the assignment given by `args`, a list of variables and values. A
    /// variable that is not listed is false; if a variable is listed more than once, the last value
    /// counts.
    pub fn eval_edge(manager: &Manager, edge: &Edge, args: &[(Edge, bool)]) -> (r: bool)
        requires
            manager.wf(),
            manager.has(*edge),
            args_valid(manager.nodes(), args@),
        ensures
            r == manager.eval(*edge, args_env(manager.nodes(), args@)),
    {
        valuation::eval_edge(manager, *edge, args)
    }

    /// Substitutes functions for variables in `edge`, all at the same time.
    ///
    /// A number that was used before must stand for the same substitution again.
    pub fn substitute_edge(
        manager: &mut Manager,
        edge: &Edge,
        substitution: &Substitution,
    ) -> (r: AllocResult<Edge>)
        requires
            old(manager).wf(),
            old(manager).has(*edge),
            pairs_valid(old(manager).nodes(), substitution.pairs@),
            !below_substituted(
                old(manager).nodes(),
                pairs_map(old(manager).nodes(), substitution.pairs@),
                *edge,
            ) && old(manager).substitutions().contains_key(substitution.id) ==> old(
                manager,
            ).substitutions()[substitution.id] == pairs_map(
                old(manager).nodes(),
                substitution.pairs@,
            ),
        ensures
            final(manager).wf(),
            extends(old(manager).nodes(), final(manager).nodes()),
            final(manager).levels() == old(manager).levels(),
            final(manager).capacity() == old(manager).capacity(),
            final(manager).threads() == old(manager).threads(),
            final(manager).substitutions() == if below_substituted(
                old(manager).nodes(),
                pairs_map(old(manager).nodes(), substitution.pairs@),
                *edge,
            ) {
                old(manager).substitutions()
            } else {
                old(manager).substitutions().insert(
                    substitution.id,
                    pairs_map(old(manager).nodes(), substitution.pairs@),
                )
            },
            match r {
                Ok(h) => {
                    &&& final(manager).has(h)
                    &&& forall|env: Set<LevelNo>| #[trigger]
                        eval(final(manager).nodes(), h, env) == old(manager).eval(
                            *edge,
                            subst_env(
                                old(manager).nodes(),
                                pairs_map(old(manager).nodes(), substitution.pairs@),
                                env,
                            ),
                        )
                },
                Err(_) => final(manager).is_full() && lacks_substituted(
                    final(manager).nodes(),
                    pairs_map(old(manager).nodes(), substitution.pairs@),
                    *edge,
                ),
            },
            below_substituted(
                old(manager).nodes(),
                pairs_map(old(manager).nodes(), substitution.pairs@),
                *edge,
            ) ==> r == Ok::<Edge, OutOfMemory>(*edge),
            !below_substituted(
                old(manager).nodes(),
                pairs_map(old(manager).nodes(), substitution.pairs@),
                *edge,
            ) ==> memoised(
                *old(manager),
                *final(manager),
                subst_key(*edge, substitution.id),
                r,
            ),
    {
        let ghost m0 = *manager;
        let ghost map = pairs_map(m0.nodes(), substitution.pairs@);
        proof {
            lemma_pairs_map_valid(m0.nodes(), substitution.pairs@);
        }
        let ghost below = below_substituted(m0.nodes(), map, *edge);
        manager.register_substitution(substitution.id, Ghost(map), Ghost(!below));
        let subst = match substitute_prepare(manager, substitution.pairs.as_slice()) {
            Ok(subst) => subst,
            Err(err) => return Err(err),
        };
        proof {
            lemma_extends(m0.nodes(), manager.nodes(), m0.levels());
            if subst@.len() > 0 {
                assert(map.contains_key((subst@.len() - 1) as LevelNo));
            }
        }
        let d: u32 = Self::init_depth(manager);
        let r = substitute(manager, d, *edge, subst.as_slice(), substitution.id);
        proof {
            lemma_extends(m0.nodes(), manager.nodes(), m0.levels());
            lemma_subst_extends(m0.nodes(), manager.nodes(), m0.levels(), map);
            if below {
                assert forall|env: Set<LevelNo>| #[trigger]
                    eval(manager.nodes(), *edge, env) == m0.eval(
                        *edge,
                        subst_env(m0.nodes(), map, env),
                    ) by {
                    lemma_eval_agree(
                        m0.nodes(),
                        m0.levels(),
                        *edge,
                        env,
                        subst_env(m0.nodes(), map, env),
                    );
                }
            }
        }
        r
    }

    /// Restricts the variables of `vars`, a conjunction of literals, to the constants for which
    /// the literals hold.
    pub fn restrict_edge(manager: &mut Manager, root: &Edge, vars: &Edge) -> (r: AllocResult<Edge>)
        requires
            old(manager).wf(),
            old(manager).has(*root),
            old(manager).has(*vars),
            is_inner(*root) ==> is_cube(old(manager).nodes(), *vars),
        ensures
            result_of(
                *old(manager),
                *final(manager),
                r,
                |env: Set<LevelNo>|
                    old(manager).eval(*root, cube_assign(old(manager).nodes(), *vars, env)),
            ),
            !is_inner(*root) || !is_inner(*vars) ==> r == Ok::<Edge, OutOfMemory>(*root),
            is_inner(*root) && is_inner(*vars) && level_of(old(manager).nodes(), *root) < level_of(
                old(manager).nodes(),
                *vars,
            ) ==> memoised(
                *old(manager),
                *final(manager),
                restrict_key(*root, *vars),
                flipped_result(r, root.tag == EdgeTag::Complemented),
            ),
    {
        let ghost m0 = *manager;
        let d: u32 = Self::init_depth(manager);
        let r = restrict(manager, d, *root, *vars);
        proof {
            lemma_extends(m0.nodes(), manager.nodes(), m0.levels());
            lemma_negation(m0.nodes());
            let parts = restrict_fn(m0.nodes(), *root, *vars);
            lemma_adds_same(m0.nodes(), manager.nodes(), parts, false);
            lemma_cube_extends(m0.nodes(), manager.nodes(), m0.levels(), *vars);
        }
        r
    }

    /// Universal quantification of `root` over the variables of the set `vars`.
    pub fn forall_edge(manager: &mut Manager, root: &Edge, vars: &Edge) -> (r: AllocResult<Edge>)
        requires
            old(manager).wf(),
            old(manager).has(*root),
            old(manager).has(*vars),
        ensures
            result_or_full(
                *old(manager),
                *final(manager),
                r,
                |env: Set<LevelNo>|
                    quantify(
                        BCDDOp::Forall,
                        old(manager).nodes(),
                        *root,
                        var_set(old(manager).nodes(), *vars),
                        env,
                    ),
            ),
            r is Err ==> lacks_quantified(
                final(manager).nodes(),
                BCDDOp::Forall,
                *root,
                var_set(final(manager).nodes(), *vars),
            ),
            quant_trivial(old(manager).nodes(), BCDDOp::Forall, *root, *vars) matches Some(
                e,
            ) ==> r == Ok::<Edge, OutOfMemory>(e),
            quant_trivial(old(manager).nodes(), BCDDOp::Forall, *root, *vars) is None ==> memoised(
                *old(manager),
                *final(manager),
                quant_key(old(manager).nodes(), BCDDOp::Forall, *root, *vars),
                r,
            ),
    {
        let d: u32 = Self::init_depth(manager);
        let r = quant(manager, BCDDOp::Forall, d, *root, *vars);
        proof {
            lemma_quantified_before(
                old(manager).nodes(),
                manager.nodes(),
                manager.levels(),
                BCDDOp::Forall,
                *root,
                *vars,
            );
        }
        r
    }

    /// Existential quantification of `root` over the variables of the set `vars`.
    pub fn exist_edge(manager: &mut Manager, root: &Edge, vars: &Edge) -> (r: AllocResult<Edge>)
        requires
            old(manager).wf(),
            old(manager).has(*root),
            old(manager).has(*vars),
        ensures
            result_or_full(
                *old(manager),
                *final(manager),
                r,
                |env: Set<LevelNo>|
                    quantify(
                        BCDDOp::Exist,
                        old(manager).nodes(),
                        *root,
                        var_set(old(manager).nodes(), *vars),
                        env,
                    ),
            ),
            r is Err ==> lacks_quantified(
                final(manager).nodes(),
                BCDDOp::Exist,
                *root,
                var_set(final(manager).nodes(), *vars),
            ),
            quant_trivial(old(manager).nodes(), BCDDOp::Exist, *root, *vars) matches Some(
                e,
            ) ==> r == Ok::<Edge, OutOfMemory>(e),
            quant_trivial(old(manager).nodes(), BCDDOp::Exist, *root, *vars) is None ==> memoised(
                *old(manager),
                *final(manager),
                quant_key(old(manager).nodes(), BCDDOp::Exist, *root, *vars),
                r,
            ),
    {
        let d: u32 = Self::init_depth(manager);
        let r = quant(manager, BCDDOp::Exist, d, *root, *vars);
        proof {
            lemma_quantified_before(
                old(manager).nodes(),
                manager.nodes(),
                manager.levels(),
                BCDDOp::Exist,
                *root,
                *vars,
            );
        }
        r
    }

    /// Unique quantification of `root` over the variables of the set `vars`: for each variable, the
    /// exclusive disjunction of both cofactors.
    pub fn unique_edge(manager: &mut Manager, root: &Edge, vars: &Edge) -> (r: AllocResult<Edge>)
        requires
            old(manager).wf(),
            old(manager).has(*root),
            old(manager).has(*vars),
        ensures
            result_or_full(
                *old(manager),
                *final(manager),
                r,
                |env: Set<LevelNo>|
                    quantify(
                        BCDDOp::Unique,
                        old(manager).nodes(),
                        *root,
                        var_set(old(manager).nodes(), *vars),
                        env,
                    ),
            ),
            r is Err ==> lacks_quantified(
                final(manager).nodes(),
                BCDDOp::Unique,
                *root,
                var_set(final(manager).nodes(), *vars),
            ),
            quant_trivial(old(manager).nodes(), BCDDOp::Unique, *root, *vars) matches Some(
                e,
            ) ==> r == Ok::<Edge, OutOfMemory>(e),
            quant_trivial(old(manager).nodes(), BCDDOp::Unique, *root, *vars) is None ==> memoised(
                *old(manager),
                *final(manager),
                quant_key(old(manager).nodes(), BCDDOp::Unique, *root, *vars),
                r,
            ),
    {
        let d: u32 = Self::init_depth(manager);
        let r = quant(manager, BCDDOp::Unique, d, *root, *vars);
        proof {
            lemma_quantified_before(
                old(manager).nodes(),
                manager.nodes(),
                manager.levels(),
                BCDDOp::Unique,
                *root,
                *vars,
            );
        }
        r
    }
}

} // verus!
