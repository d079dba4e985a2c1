//! Laws of the outcome of operations: edges, the store, and what an error tells.

use super::apply_rec_mt::{result_of, result_or_full};
use super::canonicity::{absent, lacks_quantified, lacks_substituted, part_of, quant_fn, subst_fn};
use super::edge::{BCDDOp, Edge, EdgeTag, InnerNode, LevelNo};
use super::growth::{adds_parts, stands_for, with_top};
use super::manager::{bin_key, memoised, restrict_key, variable_node, BCDDKey, Manager};
use super::operators::{quantify, subst_env};
use super::semantics::{
    assign, else_of, eval, is_diagram, is_inner, lemma_cofactors, lemma_eval_agree, lemma_extends,
    level_of, node_of, then_of, valid,
};
use crate::util::{AllocResult, OutOfMemory};
use vstd::prelude::*;

verus! {

/// The parts of an edge: the constants are the edges to the terminal, and flipping changes the tag and
/// nothing else.
pub proof fn law_edge_parts(e: Edge, tag: EdgeTag)
    ensures
        Edge::constant(true) == (Edge { node: 0, tag: EdgeTag::Regular }),
        Edge::constant(false) == (Edge { node: 0, tag: EdgeTag::Complemented }),
        e.flipped(true).node == e.node,
        e.flipped(true).tag != e.tag,
        e.flipped(false) == e,
        e.tagged(tag) == (Edge { node: e.node, tag }),
        e.neg() <==> e.tag == EdgeTag::Complemented,
{
}

/// The variable at a level is the node that decides between "true" and "false".
pub proof fn law_variable(level: LevelNo)
    ensures
        variable_node(level) == (InnerNode {
            level,
            t: Edge { node: 0, tag: EdgeTag::Regular },
            e: Edge { node: 0, tag: EdgeTag::Complemented },
        }),
{
}

/// An edge belongs to a manager exactly if its node is in the store, and the store is full exactly if
/// there are as many nodes as there is room for.
pub proof fn law_store(manager: Manager, e: Edge, env: Set<LevelNo>)
    ensures
        manager.has(e) <==> e.node <= manager.nodes().len(),
        manager.eval(e, env) == eval(manager.nodes(), e, env),
        manager.is_full() <==> manager.nodes().len() >= manager.capacity(),
        is_inner(e) <==> e.node != 0,
        e.node != 0 ==> node_of(manager.nodes(), e) == manager.nodes()[e.node - 1],
        e.node != 0 ==> level_of(manager.nodes(), e) == manager.nodes()[e.node - 1].level,
        e.node == 0 ==> level_of(manager.nodes(), e) > LevelNo::MAX,
{
}

/// What is in the store stays there, and keeps its meaning.
pub proof fn law_store_grows(before: Manager, after: Manager)
    requires
        before.wf(),
        before.grows_to(&after),
    ensures
        before.nodes().len() <= after.nodes().len(),
        forall|i: int|
            0 <= i < before.nodes().len() ==> #[trigger] after.nodes()[i] == before.nodes()[i],
        forall|e: Edge, env: Set<LevelNo>|
            e.node <= before.nodes().len() ==> #[trigger] eval(after.nodes(), e, env) == eval(
                before.nodes(),
                e,
                env,
            ),
        after.levels() == before.levels(),
        after.capacity() == before.capacity(),
        after.threads() == before.threads(),
        after.substitutions() == before.substitutions(),
{
    lemma_extends(before.nodes(), after.nodes(), before.levels());
}

/// An operation returns an edge of the function that it computes, or an error. There is an error only
/// if the store is full.
pub proof fn law_result(
    before: Manager,
    after: Manager,
    r: AllocResult<Edge>,
    value: spec_fn(Set<LevelNo>) -> bool,
)
    requires
        result_or_full(before, after, r, value),
    ensures
        after.wf(),
        before.grows_to(&after),
        r matches Ok(h) ==> h.node <= after.nodes().len(),
        r matches Ok(h) ==> forall|env: Set<LevelNo>| #[trigger]
            eval(after.nodes(), h, env) == value(env),
        r is Err ==> after.nodes().len() >= after.capacity(),
{
}

/// If an operation that does not need other intermediate results returns an error, no edge in the
/// store stands for the function.
pub proof fn law_result_missing(
    before: Manager,
    after: Manager,
    r: AllocResult<Edge>,
    value: spec_fn(Set<LevelNo>) -> bool,
    e: Edge,
)
    requires
        result_of(before, after, r, value),
        r is Err,
        e.node <= after.nodes().len(),
    ensures
        exists|env: Set<LevelNo>| #[trigger] eval(after.nodes(), e, env) != value(env),
{
    assert(valid(after.nodes(), e));
}

/// An operation that does not need other intermediate results only adds nodes for what the function
/// becomes once the variables above some level have values, or for the negation of that.
pub proof fn law_result_parts(
    before: Manager,
    after: Manager,
    r: AllocResult<Edge>,
    value: spec_fn(Set<LevelNo>) -> bool,
    e: Edge,
) -> (part: (Set<LevelNo>, int, bool))
    requires
        result_of(before, after, r, value),
        before.nodes().len() < e.node <= after.nodes().len(),
    ensures
        forall|env: Set<LevelNo>, x: Set<LevelNo>|
            (forall|l: LevelNo| #[trigger]
                x.contains(l) == if l < part.1 {
                    part.0.contains(l)
                } else {
                    env.contains(l)
                }) ==> #[trigger] eval(after.nodes(), e, env) == (#[trigger] value(x) != part.2),
{
    reveal(adds_parts);
    let nodes = after.nodes();
    assert(valid(nodes, e) && !valid(before.nodes(), e));
    let (fixed, k, neg) = choose|fixed: Set<LevelNo>, k: int, neg: bool| #[trigger]
        stands_for(nodes, e, value, fixed, k, neg);
    assert forall|env: Set<LevelNo>, x: Set<LevelNo>|
        (forall|l: LevelNo| #[trigger]
            x.contains(l) == if l < k {
                fixed.contains(l)
            } else {
                env.contains(l)
            }) implies #[trigger] eval(nodes, e, env) == (#[trigger] value(x) != neg) by {
        assert(x =~= with_top(fixed, k, env));
    }
    (fixed, k, neg)
}

/// The result of an operation comes out of the apply cache if it is there, and is there afterwards.
pub proof fn law_memoised(before: Manager, after: Manager, key: BCDDKey, r: AllocResult<Edge>)
    requires
        memoised(before, after, key, r),
    ensures
        before.cached().contains_key(key) ==> r == Ok::<Edge, OutOfMemory>(before.cached()[key])
            && after.nodes() == before.nodes(),
        r matches Ok(e) ==> after.cached().contains_key(key) && after.cached()[key] == e,
{
}

/// The result of a binary operator is cached under both operands, in an order that does not depend on
/// which of them comes first.
pub proof fn law_bin_key(op: BCDDOp, f: Edge, g: Edge)
    ensures
        bin_key(op, f, g).op == op,
        f.node != g.node ==> bin_key(op, f, g) == bin_key(op, g, f),
        (bin_key(op, f, g).f == f && bin_key(op, f, g).g == g) || (bin_key(op, f, g).f == g
            && bin_key(op, f, g).g == f),
{
}

/// A restriction is cached under the node of the function and the cube, so that a function and its
/// negation share their results.
pub proof fn law_restrict_key(f: Edge, vars: Edge)
    ensures
        restrict_key(f, vars).op == BCDDOp::Restrict,
        restrict_key(f, vars).f.node == f.node,
        restrict_key(f, vars).g == vars,
        restrict_key(f.flipped(true), vars) == restrict_key(f, vars),
{
}

// ---------------------------------------------------------------------------------------------
// Operations that need intermediate results

/// A part of a function is what the function becomes once the variables above have values.
proof fn lemma_part(nodes: Seq<InnerNode>, levels: LevelNo, f: Edge, g: Edge) -> (fixed: Set<LevelNo>)
    requires
        is_diagram(nodes, levels),
        valid(nodes, f),
        part_of(nodes, f, g),
    ensures
        valid(nodes, g),
        level_of(nodes, f) <= level_of(nodes, g),
        forall|env: Set<LevelNo>| #[trigger]
            eval(nodes, g, env) == eval(nodes, f, with_top(fixed, level_of(nodes, g), env)),
    decreases f.node,
{
    let k = level_of(nodes, g);
    if f == g {
        let fixed = Set::empty();
        assert forall|env: Set<LevelNo>| #[trigger] eval(nodes, g, env) == eval(
            nodes,
            f,
            with_top(fixed, k, env),
        ) by {
            lemma_eval_agree(nodes, levels, f, env, with_top(fixed, k, env));
        }
        fixed
    } else {
        lemma_cofactors(nodes, levels, f);
        let t = then_of(nodes, f);
        let e = else_of(nodes, f);
        let positive = t.node < f.node && part_of(nodes, t, g);
        let c = if positive {
            t
        } else {
            e
        };
        let less = lemma_part(nodes, levels, c, g);
        let l = node_of(nodes, f).level;
        let fixed = assign(less, l, positive);
        assert forall|env: Set<LevelNo>| #[trigger] eval(nodes, g, env) == eval(
            nodes,
            f,
            with_top(fixed, k, env),
        ) by {
            let x = with_top(fixed, k, env);
            let y = with_top(less, k, env);
            assert(x.contains(l) == positive);
            assert(eval(nodes, f, x) == eval(nodes, c, x));
            assert forall|m: LevelNo| m >= level_of(nodes, c) implies #[trigger] x.contains(m)
                == y.contains(m) by {}
            lemma_eval_agree(nodes, levels, c, x, y);
        }
        fixed
    }
}

/// If a substitution returns an error, the store lacks an edge that is needed: there is a function
/// `g`, which `f` becomes once the variables above some level have values, such that no edge stands
/// for `g` with the functions substituted.
pub proof fn law_substituted_missing(
    nodes: Seq<InnerNode>,
    levels: LevelNo,
    m: Map<LevelNo, Edge>,
    f: Edge,
) -> (part: (Edge, Set<LevelNo>, int))
    requires
        is_diagram(nodes, levels),
        f.node <= nodes.len(),
        lacks_substituted(nodes, m, f),
    ensures
        part.0.node <= nodes.len(),
        forall|env: Set<LevelNo>, x: Set<LevelNo>|
            (forall|l: LevelNo| #[trigger]
                x.contains(l) == if l < part.2 {
                    part.1.contains(l)
                } else {
                    env.contains(l)
                }) ==> #[trigger] eval(nodes, part.0, env) == #[trigger] eval(nodes, f, x),
        forall|e: Edge|
            (#[trigger] e.node) <= nodes.len() ==> exists|env: Set<LevelNo>| #[trigger]
                eval(nodes, e, env) != eval(nodes, part.0, subst_env(nodes, m, env)),
{
    let g = choose|g: Edge| #[trigger]
        part_of(nodes, f, g) && absent(nodes, subst_fn(nodes, m, g));
    let k = level_of(nodes, g);
    let fixed = lemma_part(nodes, levels, f, g);
    assert forall|env: Set<LevelNo>, x: Set<LevelNo>|
        (forall|l: LevelNo| #[trigger]
            x.contains(l) == if l < k {
                fixed.contains(l)
            } else {
                env.contains(l)
            }) implies #[trigger] eval(nodes, g, env) == #[trigger] eval(nodes, f, x) by {
        assert(x =~= with_top(fixed, k, env));
    }
    assert forall|e: Edge| (#[trigger] e.node) <= nodes.len() implies exists|env: Set<LevelNo>|
     #[trigger] eval(nodes, e, env) != eval(nodes, g, subst_env(nodes, m, env)) by {
        assert(valid(nodes, e));
        let env = choose|env: Set<LevelNo>| #[trigger]
            eval(nodes, e, env) != subst_fn(nodes, m, g)(env);
        assert(eval(nodes, e, env) != eval(nodes, g, subst_env(nodes, m, env)));
    }
    (g, fixed, k)
}

/// If a quantification returns an error, the store lacks an edge that is needed: there is a function
/// `g`, which `f` becomes once the variables above some level have values, such that no edge stands
/// for `g` quantified over the last ones of the variables.
pub proof fn law_quantified_missing(
    nodes: Seq<InnerNode>,
    levels: LevelNo,
    op: BCDDOp,
    f: Edge,
    vars: Seq<LevelNo>,
) -> (part: (Edge, Set<LevelNo>, int, int))
    requires
        is_diagram(nodes, levels),
        f.node <= nodes.len(),
        lacks_quantified(nodes, op, f, vars),
    ensures
        part.0.node <= nodes.len(),
        0 <= part.3 <= vars.len(),
        forall|env: Set<LevelNo>, x: Set<LevelNo>|
            (forall|l: LevelNo| #[trigger]
                x.contains(l) == if l < part.2 {
                    part.1.contains(l)
                } else {
                    env.contains(l)
                }) ==> #[trigger] eval(nodes, part.0, env) == #[trigger] eval(nodes, f, x),
        forall|e: Edge|
            (#[trigger] e.node) <= nodes.len() ==> exists|env: Set<LevelNo>| #[trigger]
                eval(nodes, e, env) != quantify(op, nodes, part.0, vars.skip(part.3), env),
{
    let (g, j) = choose|g: Edge, j: int|
        #![trigger part_of(nodes, f, g), vars.skip(j)]
        part_of(nodes, f, g) && 0 <= j <= vars.len() && absent(
            nodes,
            quant_fn(nodes, op, g, vars.skip(j)),
        );
    let k = level_of(nodes, g);
    let fixed = lemma_part(nodes, levels, f, g);
    assert forall|env: Set<LevelNo>, x: Set<LevelNo>|
        (forall|l: LevelNo| #[trigger]
            x.contains(l) == if l < k {
                fixed.contains(l)
            } else {
                env.contains(l)
            }) implies #[trigger] eval(nodes, g, env) == #[trigger] eval(nodes, f, x) by {
        assert(x =~= with_top(fixed, k, env));
    }
    assert forall|e: Edge| (#[trigger] e.node) <= nodes.len() implies exists|env: Set<LevelNo>|
     #[trigger] eval(nodes, e, env) != quantify(op, nodes, g, vars.skip(j), env) by {
        assert(valid(nodes, e));
        let env = choose|env: Set<LevelNo>| #[trigger]
            eval(nodes, e, env) != quant_fn(nodes, op, g, vars.skip(j))(env);
        assert(eval(nodes, e, env) != quantify(op, nodes, g, vars.skip(j), env));
    }
    (g, fixed, k, j)
}

} // verus!
