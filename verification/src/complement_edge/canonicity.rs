//! Equal functions have equal edges, and what follows from that for functions that have no edge.

use super::edge::{BCDDOp, Edge, EdgeTag, InnerNode, LevelNo};
use super::operators::{
    cube_assign, is_quantifier, lemma_cube_below, quant_value, quantify, subst_env,
};
use super::semantics::{
    bin_value, else_of, eval, extends, is_diagram, is_inner, lemma_cofactors, lemma_eval_agree,
    lemma_eval_flipped, lemma_extends, level_of, node_of, then_of, valid,
};
use vstd::prelude::*;

verus! {

/// Both edges stand for the same function.
pub open spec fn equivalent(nodes: Seq<InnerNode>, a: Edge, b: Edge) -> bool {
    forall|env: Set<LevelNo>| #[trigger] eval(nodes, a, env) == eval(nodes, b, env)
}

/// A function that does not depend on the top variable of its edge has equivalent cofactors.
proof fn lemma_same_cofactors(nodes: Seq<InnerNode>, levels: LevelNo, a: Edge, b: Edge)
    requires
        is_diagram(nodes, levels),
        valid(nodes, a),
        valid(nodes, b),
        is_inner(a),
        level_of(nodes, a) < level_of(nodes, b),
        equivalent(nodes, a, b),
    ensures
        equivalent(nodes, then_of(nodes, a), else_of(nodes, a)),
{
    lemma_cofactors(nodes, levels, a);
    let l = node_of(nodes, a).level;
    let t = then_of(nodes, a);
    let e = else_of(nodes, a);
    assert forall|env: Set<LevelNo>| #[trigger] eval(nodes, t, env) == eval(nodes, e, env) by {
        let with = env.insert(l);
        let without = env.remove(l);
        lemma_eval_agree(nodes, levels, t, env, with);
        lemma_eval_agree(nodes, levels, e, env, without);
        lemma_eval_agree(nodes, levels, b, with, without);
        assert(eval(nodes, a, with) == eval(nodes, b, with));
        assert(eval(nodes, a, without) == eval(nodes, b, without));
    }
}

/// Two edges with the same top variable that stand for the same function have equivalent cofactors.
proof fn lemma_equal_cofactors(nodes: Seq<InnerNode>, levels: LevelNo, a: Edge, b: Edge)
    requires
        is_diagram(nodes, levels),
        valid(nodes, a),
        valid(nodes, b),
        is_inner(a),
        is_inner(b),
        level_of(nodes, a) == level_of(nodes, b),
        equivalent(nodes, a, b),
    ensures
        equivalent(nodes, then_of(nodes, a), then_of(nodes, b)),
        equivalent(nodes, else_of(nodes, a), else_of(nodes, b)),
{
    lemma_cofactors(nodes, levels, a);
    lemma_cofactors(nodes, levels, b);
    let l = node_of(nodes, a).level;
    assert forall|env: Set<LevelNo>| #[trigger]
        eval(nodes, then_of(nodes, a), env) == eval(nodes, then_of(nodes, b), env) by {
        let with = env.insert(l);
        lemma_eval_agree(nodes, levels, then_of(nodes, a), env, with);
        lemma_eval_agree(nodes, levels, then_of(nodes, b), env, with);
        assert(eval(nodes, a, with) == eval(nodes, b, with));
    }
    assert forall|env: Set<LevelNo>| #[trigger]
        eval(nodes, else_of(nodes, a), env) == eval(nodes, else_of(nodes, b), env) by {
        let without = env.remove(l);
        lemma_eval_agree(nodes, levels, else_of(nodes, a), env, without);
        lemma_eval_agree(nodes, levels, else_of(nodes, b), env, without);
        assert(eval(nodes, a, without) == eval(nodes, b, without));
    }
}

/// Two edges that stand for the same function are the same.
pub proof fn lemma_canonical(nodes: Seq<InnerNode>, levels: LevelNo, a: Edge, b: Edge)
    requires
        is_diagram(nodes, levels),
        valid(nodes, a),
        valid(nodes, b),
        equivalent(nodes, a, b),
    ensures
        a == b,
    decreases
            (if a.node > b.node {
                a.node
            } else {
                b.node
            }),
{
    if !is_inner(a) && !is_inner(b) {
        assert(eval(nodes, a, Set::empty()) == eval(nodes, b, Set::empty()));
    } else if level_of(nodes, a) < level_of(nodes, b) {
        lemma_cofactors(nodes, levels, a);
        lemma_same_cofactors(nodes, levels, a, b);
        lemma_canonical(nodes, levels, then_of(nodes, a), else_of(nodes, a));
    } else if level_of(nodes, a) > level_of(nodes, b) {
        lemma_cofactors(nodes, levels, b);
        lemma_same_cofactors(nodes, levels, b, a);
        lemma_canonical(nodes, levels, then_of(nodes, b), else_of(nodes, b));
    } else {
        lemma_cofactors(nodes, levels, a);
        lemma_cofactors(nodes, levels, b);
        lemma_equal_cofactors(nodes, levels, a, b);
        lemma_canonical(nodes, levels, then_of(nodes, a), then_of(nodes, b));
        lemma_canonical(nodes, levels, else_of(nodes, a), else_of(nodes, b));
        assert(a.neg() == b.neg());
        let m = node_of(nodes, a);
        let n = node_of(nodes, b);
        assert(m.t == n.t);
        assert(m.e == n.e);
        assert(nodes[a.node - 1] == nodes[b.node - 1]);
    }
}

// ---------------------------------------------------------------------------------------------
// Functions without an edge

/// The edge stands for the function `value`.
pub open spec fn denotes(
    nodes: Seq<InnerNode>,
    e: Edge,
    value: spec_fn(Set<LevelNo>) -> bool,
) -> bool {
    &&& valid(nodes, e)
    &&& forall|env: Set<LevelNo>| #[trigger] eval(nodes, e, env) == value(env)
}

/// No edge of the diagram stands for the function `value`.
pub open spec fn absent(nodes: Seq<InnerNode>, value: spec_fn(Set<LevelNo>) -> bool) -> bool {
    forall|e: Edge| #[trigger]
        valid(nodes, e) ==> exists|env: Set<LevelNo>| #[trigger] eval(nodes, e, env) != value(env)
}

/// The node for the decision on the variable at `level` between `t` and `e`.
pub open spec fn node_for(level: LevelNo, t: Edge, e: Edge) -> InnerNode {
    InnerNode { level, t: t.tagged(EdgeTag::Regular), e: e.flipped(t.neg()) }
}

/// `b` has the nodes of `a`, and the node for the decision between `t` and `e` unless both are the
/// same.
#[verifier::opaque]
pub open spec fn adds_decision(
    a: Seq<InnerNode>,
    b: Seq<InnerNode>,
    level: LevelNo,
    t: Edge,
    e: Edge,
) -> bool {
    b == if t == e || a.contains(node_for(level, t, e)) {
        a
    } else {
        a.push(node_for(level, t, e))
    }
}

/// There are edges for the cofactors, but no node for the decision between them.
pub open spec fn undecided(
    nodes: Seq<InnerNode>,
    level: LevelNo,
    vt: spec_fn(Set<LevelNo>) -> bool,
    ve: spec_fn(Set<LevelNo>) -> bool,
) -> bool {
    exists|t: Edge, e: Edge| #[trigger]
        denotes(nodes, t, vt) && #[trigger] denotes(nodes, e, ve) && t != e && !nodes.contains(
            node_for(level, t, e),
        )
}

/// The functions `vt` and `ve` are the cofactors of `value` with respect to the variable at `level`,
/// and `value` does not depend on the variables above.
pub open spec fn splits(
    value: spec_fn(Set<LevelNo>) -> bool,
    level: LevelNo,
    vt: spec_fn(Set<LevelNo>) -> bool,
    ve: spec_fn(Set<LevelNo>) -> bool,
) -> bool {
    &&& forall|env: Set<LevelNo>| #[trigger] vt(env) == value(env.insert(level))
    &&& forall|env: Set<LevelNo>| #[trigger] ve(env) == value(env.remove(level))
    &&& forall|x: Set<LevelNo>, y: Set<LevelNo>|
        agree_from(level, x, y) ==> #[trigger] value(x) == #[trigger] value(y)
}

/// Both assignments give the same value to every variable at `level` or below.
pub open spec fn agree_from(level: LevelNo, x: Set<LevelNo>, y: Set<LevelNo>) -> bool {
    forall|l: LevelNo| l >= level ==> #[trigger] x.contains(l) == y.contains(l)
}

/// A function that lacks an edge for a cofactor, or a node for the decision between its cofactors,
/// has no edge.
pub proof fn lemma_absent_decision(
    nodes: Seq<InnerNode>,
    levels: LevelNo,
    value: spec_fn(Set<LevelNo>) -> bool,
    level: LevelNo,
    vt: spec_fn(Set<LevelNo>) -> bool,
    ve: spec_fn(Set<LevelNo>) -> bool,
)
    requires
        is_diagram(nodes, levels),
        splits(value, level, vt, ve),
        absent(nodes, vt) || absent(nodes, ve) || undecided(nodes, level, vt, ve),
    ensures
        absent(nodes, value),
{
    assert forall|x: Edge| #[trigger] valid(nodes, x) implies exists|env: Set<LevelNo>| #[trigger]
        eval(nodes, x, env) != value(env) by {
        if denotes(nodes, x, value) {
            if is_inner(x) {
                lemma_cofactors(nodes, levels, x);
            }
            if level_of(nodes, x) < level {
                lemma_independent(nodes, levels, x, value, level);
            }
            let at = level_of(nodes, x) == level;
            let xt = if at {
                then_of(nodes, x)
            } else {
                x
            };
            let xe = if at {
                else_of(nodes, x)
            } else {
                x
            };
            assert forall|env: Set<LevelNo>| #[trigger] eval(nodes, xt, env) == vt(env) by {
                let with = env.insert(level);
                assert(eval(nodes, x, with) == value(with));
                lemma_eval_agree(nodes, levels, xt, env, with);
            }
            assert forall|env: Set<LevelNo>| #[trigger] eval(nodes, xe, env) == ve(env) by {
                let without = env.remove(level);
                assert(eval(nodes, x, without) == value(without));
                lemma_eval_agree(nodes, levels, xe, env, without);
            }
            assert(denotes(nodes, xt, vt));
            assert(denotes(nodes, xe, ve));
            let (t, e) = choose|t: Edge, e: Edge| #[trigger]
                denotes(nodes, t, vt) && #[trigger] denotes(nodes, e, ve) && t != e
                    && !nodes.contains(node_for(level, t, e));
            assert(equivalent(nodes, t, xt));
            assert(equivalent(nodes, e, xe));
            lemma_canonical(nodes, levels, t, xt);
            lemma_canonical(nodes, levels, e, xe);
            assert(nodes[x.node - 1] == node_for(level, t, e));
        }
    }
}

/// The edge of a function that does not depend on the variables above a level is not above it.
proof fn lemma_independent(
    nodes: Seq<InnerNode>,
    levels: LevelNo,
    x: Edge,
    value: spec_fn(Set<LevelNo>) -> bool,
    level: LevelNo,
)
    requires
        is_diagram(nodes, levels),
        denotes(nodes, x, value),
        forall|a: Set<LevelNo>, b: Set<LevelNo>|
            agree_from(level, a, b) ==> #[trigger] value(a) == #[trigger] value(b),
    ensures
        level_of(nodes, x) >= level,
{
    if level_of(nodes, x) < level {
        lemma_cofactors(nodes, levels, x);
        let l = node_of(nodes, x).level;
        let t = then_of(nodes, x);
        let e = else_of(nodes, x);
        assert forall|env: Set<LevelNo>| #[trigger] eval(nodes, t, env) == eval(nodes, e, env) by {
            let with = env.insert(l);
            let without = env.remove(l);
            lemma_eval_agree(nodes, levels, t, env, with);
            lemma_eval_agree(nodes, levels, e, env, without);
            assert(agree_from(level, with, without));
            assert(eval(nodes, x, with) == value(with));
            assert(eval(nodes, x, without) == value(without));
        }
        lemma_canonical(nodes, levels, t, e);
    }
}

/// If a function has no edge, then neither has its negation.
pub proof fn lemma_absent_negated(
    nodes: Seq<InnerNode>,
    value: spec_fn(Set<LevelNo>) -> bool,
    negated: spec_fn(Set<LevelNo>) -> bool,
)
    requires
        absent(nodes, value),
        forall|env: Set<LevelNo>| #[trigger] negated(env) == !value(env),
    ensures
        absent(nodes, negated),
{
    assert forall|e: Edge| #[trigger] valid(nodes, e) implies exists|env: Set<LevelNo>| #[trigger]
        eval(nodes, e, env) != negated(env) by {
        let f = e.flipped(true);
        assert(valid(nodes, f));
        let env = choose|env: Set<LevelNo>| #[trigger] eval(nodes, f, env) != value(env);
        lemma_eval_flipped(nodes, e, true, env);
        assert(eval(nodes, e, env) != negated(env));
    }
}

/// Whether a function has an edge depends on its values only.
pub proof fn lemma_absent_same(
    nodes: Seq<InnerNode>,
    value: spec_fn(Set<LevelNo>) -> bool,
    other: spec_fn(Set<LevelNo>) -> bool,
)
    requires
        absent(nodes, value),
        forall|env: Set<LevelNo>| #[trigger] other(env) == value(env),
    ensures
        absent(nodes, other),
{
    assert forall|e: Edge| #[trigger] valid(nodes, e) implies exists|env: Set<LevelNo>| #[trigger]
        eval(nodes, e, env) != other(env) by {
        let env = choose|env: Set<LevelNo>| #[trigger] eval(nodes, e, env) != value(env);
        assert(eval(nodes, e, env) != other(env));
    }
}

/// The conjunction (`And`) or the exclusive disjunction (`Xor`) of `f` and `g`.
pub open spec fn bin_fn(
    nodes: Seq<InnerNode>,
    op: BCDDOp,
    f: Edge,
    g: Edge,
) -> spec_fn(Set<LevelNo>) -> bool {
    |env: Set<LevelNo>| bin_value(op, eval(nodes, f, env), eval(nodes, g, env))
}

/// The function `if f { g } else { h }`.
pub open spec fn ite_fn(
    nodes: Seq<InnerNode>,
    f: Edge,
    g: Edge,
    h: Edge,
) -> spec_fn(Set<LevelNo>) -> bool {
    |env: Set<LevelNo>|
        if eval(nodes, f, env) {
            eval(nodes, g, env)
        } else {
            eval(nodes, h, env)
        }
}

/// The function `f` with the variables of the cube `vars` restricted to its literals.
pub open spec fn restrict_fn(nodes: Seq<InnerNode>, f: Edge, vars: Edge) -> spec_fn(
    Set<LevelNo>,
) -> bool {
    |env: Set<LevelNo>| eval(nodes, f, cube_assign(nodes, vars, env))
}

/// The edges `t` and `e` are the cofactors of `f` with respect to the variable at `level`.
#[verifier::opaque]
pub open spec fn cofactors(
    nodes: Seq<InnerNode>,
    level: LevelNo,
    f: Edge,
    t: Edge,
    e: Edge,
) -> bool {
    &&& valid(nodes, f)
    &&& valid(nodes, t)
    &&& valid(nodes, e)
    &&& level_of(nodes, f) >= level
    &&& level_of(nodes, t) > level
    &&& level_of(nodes, e) > level
    &&& forall|env: Set<LevelNo>| #[trigger]
        eval(nodes, f, env) == if env.contains(level) {
            eval(nodes, t, env)
        } else {
            eval(nodes, e, env)
        }
}

/// Cofactors stay cofactors when nodes are added.
pub proof fn lemma_cofactors_extends(
    a: Seq<InnerNode>,
    b: Seq<InnerNode>,
    levels: LevelNo,
    level: LevelNo,
    f: Edge,
    t: Edge,
    e: Edge,
)
    requires
        is_diagram(a, levels),
        extends(a, b),
        cofactors(a, level, f, t, e),
    ensures
        cofactors(b, level, f, t, e),
{
    reveal(cofactors);
    lemma_extends(a, b, levels);
    assert forall|env: Set<LevelNo>| #[trigger]
        eval(b, f, env) == if env.contains(level) {
            eval(b, t, env)
        } else {
            eval(b, e, env)
        } by {
        assert(eval(a, f, env) == if env.contains(level) {
            eval(a, t, env)
        } else {
            eval(a, e, env)
        });
        assert(eval(b, t, env) == eval(a, t, env));
        assert(eval(b, e, env) == eval(a, e, env));
    }
}

/// The values of the cofactors under one assignment.
proof fn lemma_cofactor_values(
    nodes: Seq<InnerNode>,
    levels: LevelNo,
    level: LevelNo,
    f: Edge,
    t: Edge,
    e: Edge,
    env: Set<LevelNo>,
)
    requires
        is_diagram(nodes, levels),
        cofactors(nodes, level, f, t, e),
    ensures
        eval(nodes, t, env) == eval(nodes, f, env.insert(level)),
        eval(nodes, e, env) == eval(nodes, f, env.remove(level)),
{
    reveal(cofactors);
    lemma_eval_agree(nodes, levels, t, env, env.insert(level));
    lemma_eval_agree(nodes, levels, e, env, env.remove(level));
}

/// A function with cofactors does not depend on the variables above them.
proof fn lemma_cofactor_agree(
    nodes: Seq<InnerNode>,
    levels: LevelNo,
    level: LevelNo,
    f: Edge,
    t: Edge,
    e: Edge,
    x: Set<LevelNo>,
    y: Set<LevelNo>,
)
    requires
        is_diagram(nodes, levels),
        cofactors(nodes, level, f, t, e),
        agree_from(level, x, y),
    ensures
        eval(nodes, f, x) == eval(nodes, f, y),
{
    reveal(cofactors);
    lemma_eval_agree(nodes, levels, f, x, y);
}

/// The cofactors of a binary operation.
pub proof fn lemma_bin_splits(
    nodes: Seq<InnerNode>,
    levels: LevelNo,
    op: BCDDOp,
    level: LevelNo,
    f: Edge,
    ft: Edge,
    fe: Edge,
    g: Edge,
    gt: Edge,
    ge: Edge,
)
    requires
        is_diagram(nodes, levels),
        cofactors(nodes, level, f, ft, fe),
        cofactors(nodes, level, g, gt, ge),
    ensures
        splits(
            bin_fn(nodes, op, f, g),
            level,
            bin_fn(nodes, op, ft, gt),
            bin_fn(nodes, op, fe, ge),
        ),
{
    let value = bin_fn(nodes, op, f, g);
    let vt = bin_fn(nodes, op, ft, gt);
    let ve = bin_fn(nodes, op, fe, ge);
    assert forall|env: Set<LevelNo>| #[trigger] vt(env) == value(env.insert(level)) by {
        lemma_cofactor_values(nodes, levels, level, f, ft, fe, env);
        lemma_cofactor_values(nodes, levels, level, g, gt, ge, env);
    }
    assert forall|env: Set<LevelNo>| #[trigger] ve(env) == value(env.remove(level)) by {
        lemma_cofactor_values(nodes, levels, level, f, ft, fe, env);
        lemma_cofactor_values(nodes, levels, level, g, gt, ge, env);
    }
    assert forall|x: Set<LevelNo>, y: Set<LevelNo>| agree_from(level, x, y) implies #[trigger] value(
        x,
    ) == #[trigger] value(y) by {
        lemma_cofactor_agree(nodes, levels, level, f, ft, fe, x, y);
        lemma_cofactor_agree(nodes, levels, level, g, gt, ge, x, y);
    }
}

/// A binary operation has no edge if a cofactor has none, or if the decision between them has none.
pub proof fn lemma_absent_bin(
    a: Seq<InnerNode>,
    nodes: Seq<InnerNode>,
    levels: LevelNo,
    op: BCDDOp,
    level: LevelNo,
    f: Edge,
    ft: Edge,
    fe: Edge,
    g: Edge,
    gt: Edge,
    ge: Edge,
)
    requires
        is_diagram(a, levels),
        is_diagram(nodes, levels),
        extends(a, nodes),
        op == BCDDOp::And || op == BCDDOp::Xor,
        cofactors(a, level, f, ft, fe),
        cofactors(a, level, g, gt, ge),
        absent(nodes, bin_fn(nodes, op, ft, gt)) || absent(nodes, bin_fn(nodes, op, fe, ge))
            || undecided(
            nodes,
            level,
            bin_fn(nodes, op, ft, gt),
            bin_fn(nodes, op, fe, ge),
        ),
    ensures
        absent(nodes, bin_fn(nodes, op, f, g)),
        absent(nodes, bin_fn(nodes, op, g, f)),
{
    lemma_cofactors_extends(a, nodes, levels, level, f, ft, fe);
    lemma_cofactors_extends(a, nodes, levels, level, g, gt, ge);
    let value = bin_fn(nodes, op, f, g);
    let vt = bin_fn(nodes, op, ft, gt);
    let ve = bin_fn(nodes, op, fe, ge);
    lemma_bin_splits(nodes, levels, op, level, f, ft, fe, g, gt, ge);
    lemma_absent_decision(nodes, levels, value, level, vt, ve);
    lemma_absent_same(nodes, value, bin_fn(nodes, op, g, f));
}

/// The cofactors of a decision.
pub proof fn lemma_ite_splits(
    nodes: Seq<InnerNode>,
    levels: LevelNo,
    level: LevelNo,
    f: Edge,
    ft: Edge,
    fe: Edge,
    g: Edge,
    gt: Edge,
    ge: Edge,
    h: Edge,
    ht: Edge,
    he: Edge,
)
    requires
        is_diagram(nodes, levels),
        cofactors(nodes, level, f, ft, fe),
        cofactors(nodes, level, g, gt, ge),
        cofactors(nodes, level, h, ht, he),
    ensures
        splits(
            ite_fn(nodes, f, g, h),
            level,
            ite_fn(nodes, ft, gt, ht),
            ite_fn(nodes, fe, ge, he),
        ),
{
    let value = ite_fn(nodes, f, g, h);
    let vt = ite_fn(nodes, ft, gt, ht);
    let ve = ite_fn(nodes, fe, ge, he);
    assert forall|env: Set<LevelNo>| #[trigger] vt(env) == value(env.insert(level)) by {
        lemma_cofactor_values(nodes, levels, level, f, ft, fe, env);
        lemma_cofactor_values(nodes, levels, level, g, gt, ge, env);
        lemma_cofactor_values(nodes, levels, level, h, ht, he, env);
    }
    assert forall|env: Set<LevelNo>| #[trigger] ve(env) == value(env.remove(level)) by {
        lemma_cofactor_values(nodes, levels, level, f, ft, fe, env);
        lemma_cofactor_values(nodes, levels, level, g, gt, ge, env);
        lemma_cofactor_values(nodes, levels, level, h, ht, he, env);
    }
    assert forall|x: Set<LevelNo>, y: Set<LevelNo>| agree_from(level, x, y) implies #[trigger] value(
        x,
    ) == #[trigger] value(y) by {
        lemma_cofactor_agree(nodes, levels, level, f, ft, fe, x, y);
        lemma_cofactor_agree(nodes, levels, level, g, gt, ge, x, y);
        lemma_cofactor_agree(nodes, levels, level, h, ht, he, x, y);
    }
}

/// A decision has no edge if a cofactor has none, or if the decision between them has none.
pub proof fn lemma_absent_ite(
    a: Seq<InnerNode>,
    nodes: Seq<InnerNode>,
    levels: LevelNo,
    level: LevelNo,
    f: Edge,
    ft: Edge,
    fe: Edge,
    g: Edge,
    gt: Edge,
    ge: Edge,
    h: Edge,
    ht: Edge,
    he: Edge,
)
    requires
        is_diagram(a, levels),
        is_diagram(nodes, levels),
        extends(a, nodes),
        cofactors(a, level, f, ft, fe),
        cofactors(a, level, g, gt, ge),
        cofactors(a, level, h, ht, he),
        absent(nodes, ite_fn(nodes, ft, gt, ht)) || absent(nodes, ite_fn(nodes, fe, ge, he))
            || undecided(
            nodes,
            level,
            ite_fn(nodes, ft, gt, ht),
            ite_fn(nodes, fe, ge, he),
        ),
    ensures
        absent(nodes, ite_fn(nodes, f, g, h)),
{
    lemma_cofactors_extends(a, nodes, levels, level, f, ft, fe);
    lemma_cofactors_extends(a, nodes, levels, level, g, gt, ge);
    lemma_cofactors_extends(a, nodes, levels, level, h, ht, he);
    let value = ite_fn(nodes, f, g, h);
    let vt = ite_fn(nodes, ft, gt, ht);
    let ve = ite_fn(nodes, fe, ge, he);
    lemma_ite_splits(nodes, levels, level, f, ft, fe, g, gt, ge, h, ht, he);
    lemma_absent_decision(nodes, levels, value, level, vt, ve);
}

/// A decision that amounts to a binary operation, or to its negation, has no edge if that operation
/// has none.
pub proof fn lemma_absent_ite_as_bin(
    nodes: Seq<InnerNode>,
    f: Edge,
    g: Edge,
    h: Edge,
    op: BCDDOp,
    x: Edge,
    y: Edge,
    negated: bool,
)
    requires
        absent(nodes, bin_fn(nodes, op, x, y)),
        forall|env: Set<LevelNo>|
            (if #[trigger] eval(nodes, f, env) {
                eval(nodes, g, env)
            } else {
                eval(nodes, h, env)
            }) == (bin_value(op, eval(nodes, x, env), eval(nodes, y, env)) != negated),
    ensures
        absent(nodes, ite_fn(nodes, f, g, h)),
{
    let value = bin_fn(nodes, op, x, y);
    let other = ite_fn(nodes, f, g, h);
    assert forall|env: Set<LevelNo>| #[trigger] other(env) == (value(env) != negated) by {
        let c = eval(nodes, f, env);
    }
    if negated {
        lemma_absent_negated(nodes, value, other);
    } else {
        lemma_absent_same(nodes, value, other);
    }
}

/// Restriction treats every variable by itself.
proof fn lemma_cube_assign_agree(
    nodes: Seq<InnerNode>,
    c: Edge,
    x: Set<LevelNo>,
    y: Set<LevelNo>,
    l: LevelNo,
)
    requires
        x.contains(l) == y.contains(l),
    ensures
        cube_assign(nodes, c, x).contains(l) == cube_assign(nodes, c, y).contains(l),
    decreases c.node,
{
    if c.node != 0 && c.node <= nodes.len() {
        let rest = if else_of(nodes, c) == Edge::constant(false) {
            then_of(nodes, c)
        } else {
            else_of(nodes, c)
        };
        if rest.node < c.node {
            lemma_cube_assign_agree(nodes, rest, x, y, l);
        }
    }
}

/// The cofactors of the restriction of a function whose variable is above those of the cube.
pub proof fn lemma_restrict_splits(
    nodes: Seq<InnerNode>,
    levels: LevelNo,
    f: Edge,
    vars: Edge,
)
    requires
        is_diagram(nodes, levels),
        valid(nodes, f),
        valid(nodes, vars),
        is_inner(f),
        level_of(nodes, f) < level_of(nodes, vars),
    ensures
        splits(
            restrict_fn(nodes, f, vars),
            node_of(nodes, f).level,
            restrict_fn(nodes, then_of(nodes, f), vars),
            restrict_fn(nodes, else_of(nodes, f), vars),
        ),
{
    let level = node_of(nodes, f).level;
    let ft = then_of(nodes, f);
    let fe = else_of(nodes, f);
    lemma_cofactors(nodes, levels, f);
    reveal(cofactors);
    assert(cofactors(nodes, level, f, ft, fe));
    let value = restrict_fn(nodes, f, vars);
    let vt = restrict_fn(nodes, ft, vars);
    let ve = restrict_fn(nodes, fe, vars);
    assert forall|env: Set<LevelNo>| #[trigger] vt(env) == value(env.insert(level)) by {
        let x = cube_assign(nodes, vars, env);
        let y = cube_assign(nodes, vars, env.insert(level));
        lemma_cube_below(nodes, levels, vars, env.insert(level), level);
        assert forall|l: LevelNo| l >= level_of(nodes, ft) implies #[trigger] x.contains(l)
            == y.contains(l) by {
            lemma_cube_assign_agree(nodes, vars, env, env.insert(level), l);
        }
        lemma_eval_agree(nodes, levels, ft, x, y);
    }
    assert forall|env: Set<LevelNo>| #[trigger] ve(env) == value(env.remove(level)) by {
        let x = cube_assign(nodes, vars, env);
        let y = cube_assign(nodes, vars, env.remove(level));
        lemma_cube_below(nodes, levels, vars, env.remove(level), level);
        assert forall|l: LevelNo| l >= level_of(nodes, fe) implies #[trigger] x.contains(l)
            == y.contains(l) by {
            lemma_cube_assign_agree(nodes, vars, env, env.remove(level), l);
        }
        lemma_eval_agree(nodes, levels, fe, x, y);
    }
    assert forall|x: Set<LevelNo>, y: Set<LevelNo>| agree_from(level, x, y) implies #[trigger] value(
        x,
    ) == #[trigger] value(y) by {
        let cx = cube_assign(nodes, vars, x);
        let cy = cube_assign(nodes, vars, y);
        assert forall|l: LevelNo| l >= level_of(nodes, f) implies #[trigger] cx.contains(l)
            == cy.contains(l) by {
            assert(x.contains(l) == y.contains(l));
            lemma_cube_assign_agree(nodes, vars, x, y, l);
        }
        lemma_eval_agree(nodes, levels, f, cx, cy);
    }
}

/// A restriction below the top variable has no edge if that of a cofactor has none, or if the
/// decision between them has none.
pub proof fn lemma_absent_restrict(
    a: Seq<InnerNode>,
    nodes: Seq<InnerNode>,
    levels: LevelNo,
    f: Edge,
    vars: Edge,
)
    requires
        is_diagram(a, levels),
        is_diagram(nodes, levels),
        extends(a, nodes),
        valid(a, f),
        valid(a, vars),
        is_inner(f),
        level_of(a, f) < level_of(a, vars),
        absent(nodes, restrict_fn(nodes, then_of(a, f), vars)) || absent(
            nodes,
            restrict_fn(nodes, else_of(a, f), vars),
        ) || undecided(
            nodes,
            node_of(a, f).level,
            restrict_fn(nodes, then_of(a, f), vars),
            restrict_fn(nodes, else_of(a, f), vars),
        ),
    ensures
        absent(nodes, restrict_fn(nodes, f, vars)),
{
    let level = node_of(a, f).level;
    let ft = then_of(a, f);
    let fe = else_of(a, f);
    lemma_extends(a, nodes, levels);
    assert(node_of(nodes, f) == node_of(a, f));
    let value = restrict_fn(nodes, f, vars);
    let vt = restrict_fn(nodes, ft, vars);
    let ve = restrict_fn(nodes, fe, vars);
    lemma_restrict_splits(nodes, levels, f, vars);
    lemma_absent_decision(nodes, levels, value, level, vt, ve);
}

// ---------------------------------------------------------------------------------------------
// Functions whose computation lacks an edge

/// `g` is `f`, a cofactor of `f`, a cofactor of a cofactor, and so on.
pub open spec fn part_of(nodes: Seq<InnerNode>, f: Edge, g: Edge) -> bool
    decreases f.node,
{
    f == g || (f.node != 0 && f.node <= nodes.len() && ((then_of(nodes, f).node < f.node
        && part_of(nodes, then_of(nodes, f), g)) || (else_of(nodes, f).node < f.node && part_of(
        nodes,
        else_of(nodes, f),
        g,
    ))))
}

/// The function `f` with the functions of `m` substituted for the variables at their levels.
pub open spec fn subst_fn(
    nodes: Seq<InnerNode>,
    m: Map<LevelNo, Edge>,
    f: Edge,
) -> spec_fn(Set<LevelNo>) -> bool {
    |env: Set<LevelNo>| eval(nodes, f, subst_env(nodes, m, env))
}

/// The function `f`, quantified by `op` over each of `vars`.
pub open spec fn quant_fn(
    nodes: Seq<InnerNode>,
    op: BCDDOp,
    f: Edge,
    vars: Seq<LevelNo>,
) -> spec_fn(Set<LevelNo>) -> bool {
    |env: Set<LevelNo>| quantify(op, nodes, f, vars, env)
}

/// For a part of `f`, no edge stands for the substituted function.
pub open spec fn lacks_substituted(
    nodes: Seq<InnerNode>,
    m: Map<LevelNo, Edge>,
    f: Edge,
) -> bool {
    exists|g: Edge| #[trigger] part_of(nodes, f, g) && absent(nodes, subst_fn(nodes, m, g))
}

/// For a part of `f`, no edge stands for its quantification over the last ones of `vars`.
pub open spec fn lacks_quantified(
    nodes: Seq<InnerNode>,
    op: BCDDOp,
    f: Edge,
    vars: Seq<LevelNo>,
) -> bool {
    exists|g: Edge, k: int|
        #![trigger part_of(nodes, f, g), vars.skip(k)]
        part_of(nodes, f, g) && 0 <= k <= vars.len() && absent(
            nodes,
            quant_fn(nodes, op, g, vars.skip(k)),
        )
}

/// What a cofactor lacks, the function lacks.
pub proof fn lemma_lacks_substituted(
    a: Seq<InnerNode>,
    nodes: Seq<InnerNode>,
    levels: LevelNo,
    m: Map<LevelNo, Edge>,
    f: Edge,
)
    requires
        is_diagram(a, levels),
        extends(a, nodes),
        valid(a, f),
        is_inner(f),
        lacks_substituted(nodes, m, then_of(a, f)) || lacks_substituted(nodes, m, else_of(a, f)),
    ensures
        lacks_substituted(nodes, m, f),
{
    lemma_cofactors(a, levels, f);
    assert(nodes[f.node - 1] == a[f.node - 1]);
    let c = if lacks_substituted(nodes, m, then_of(a, f)) {
        then_of(a, f)
    } else {
        else_of(a, f)
    };
    let g = choose|g: Edge| #[trigger]
        part_of(nodes, c, g) && absent(nodes, subst_fn(nodes, m, g));
    assert(part_of(nodes, f, g));
}

/// What a cofactor lacks, the function lacks, also if there are more variables to quantify.
pub proof fn lemma_lacks_quantified(
    a: Seq<InnerNode>,
    nodes: Seq<InnerNode>,
    levels: LevelNo,
    op: BCDDOp,
    f: Edge,
    vars: Seq<LevelNo>,
    k: int,
)
    requires
        is_diagram(a, levels),
        extends(a, nodes),
        valid(a, f),
        is_inner(f),
        0 <= k <= vars.len(),
        lacks_quantified(nodes, op, then_of(a, f), vars.skip(k)) || lacks_quantified(
            nodes,
            op,
            else_of(a, f),
            vars.skip(k),
        ) || absent(nodes, quant_fn(nodes, op, f, vars.skip(k))),
    ensures
        lacks_quantified(nodes, op, f, vars),
{
    lemma_cofactors(a, levels, f);
    assert(nodes[f.node - 1] == a[f.node - 1]);
    if absent(nodes, quant_fn(nodes, op, f, vars.skip(k))) {
        assert(part_of(nodes, f, f));
    } else {
        let c = if lacks_quantified(nodes, op, then_of(a, f), vars.skip(k)) {
            then_of(a, f)
        } else {
            else_of(a, f)
        };
        let rest = vars.skip(k);
        let (g, i) = choose|g: Edge, i: int|
            #![trigger part_of(nodes, c, g), rest.skip(i)]
            part_of(nodes, c, g) && 0 <= i <= rest.len() && absent(
                nodes,
                quant_fn(nodes, op, g, rest.skip(i)),
            );
        assert(part_of(nodes, f, g));
        assert(rest.skip(i) =~= vars.skip(k + i));
    }
}

/// The combination of the quantified cofactors `t` and `e`: by the quantifier if the variable at
/// `level` is quantified (`top`), else by a decision on that variable.
pub open spec fn combined_fn(
    nodes: Seq<InnerNode>,
    op: BCDDOp,
    top: bool,
    level: LevelNo,
    t: Edge,
    e: Edge,
) -> spec_fn(Set<LevelNo>) -> bool {
    |env: Set<LevelNo>|
        if top {
            quant_value(op, eval(nodes, t, env), eval(nodes, e, env))
        } else if env.contains(level) {
            eval(nodes, t, env)
        } else {
            eval(nodes, e, env)
        }
}

/// The combination of quantified cofactors has no edge if the operation that combines them has none.
pub proof fn lemma_absent_combined(
    nodes: Seq<InnerNode>,
    levels: LevelNo,
    op: BCDDOp,
    top: bool,
    level: LevelNo,
    t: Edge,
    e: Edge,
)
    requires
        is_diagram(nodes, levels),
        valid(nodes, t),
        valid(nodes, e),
        level_of(nodes, t) > level,
        level_of(nodes, e) > level,
        top && op == BCDDOp::Forall ==> absent(nodes, bin_fn(nodes, BCDDOp::And, t, e)),
        top && op == BCDDOp::Exist ==> absent(
            nodes,
            bin_fn(nodes, BCDDOp::And, t.flipped(true), e.flipped(true)),
        ),
        top && op == BCDDOp::Unique ==> absent(nodes, bin_fn(nodes, BCDDOp::Xor, t, e)),
        top ==> is_quantifier(op),
        !top ==> t != e && !nodes.contains(node_for(level, t, e)),
    ensures
        absent(nodes, combined_fn(nodes, op, top, level, t, e)),
{
    let value = combined_fn(nodes, op, top, level, t, e);
    if top {
        if op == BCDDOp::Forall {
            lemma_absent_same(nodes, bin_fn(nodes, BCDDOp::And, t, e), value);
        } else if op == BCDDOp::Exist {
            let both = bin_fn(nodes, BCDDOp::And, t.flipped(true), e.flipped(true));
            assert forall|env: Set<LevelNo>| #[trigger] value(env) == !both(env) by {
                lemma_eval_flipped(nodes, t, true, env);
                lemma_eval_flipped(nodes, e, true, env);
            }
            lemma_absent_negated(nodes, both, value);
        } else {
            lemma_absent_same(nodes, bin_fn(nodes, BCDDOp::Xor, t, e), value);
        }
    } else {
        let vt = |env: Set<LevelNo>| eval(nodes, t, env);
        let ve = |env: Set<LevelNo>| eval(nodes, e, env);
        assert forall|env: Set<LevelNo>| #[trigger] vt(env) == value(env.insert(level)) by {
            lemma_eval_agree(nodes, levels, t, env, env.insert(level));
        }
        assert forall|env: Set<LevelNo>| #[trigger] ve(env) == value(env.remove(level)) by {
            lemma_eval_agree(nodes, levels, e, env, env.remove(level));
        }
        assert forall|x: Set<LevelNo>, y: Set<LevelNo>|
            agree_from(level, x, y) implies #[trigger] value(x) == #[trigger] value(y) by {
            assert(x.contains(level) == y.contains(level));
            lemma_eval_agree(nodes, levels, t, x, y);
            lemma_eval_agree(nodes, levels, e, x, y);
        }
        assert(denotes(nodes, t, vt));
        assert(denotes(nodes, e, ve));
        lemma_absent_decision(nodes, levels, value, level, vt, ve);
    }
}

} // verus!
