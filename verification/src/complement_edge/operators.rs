//! What the operators with an entry in the apply cache compute.

use super::edge::{BCDDOp, Edge, InnerNode, LevelNo};
use super::semantics::{
    assign, bin_value, else_of, eval, extends, is_diagram, is_inner, lemma_cofactors,
    lemma_eval_agree, lemma_extends, level_of, node_of, node_ok, then_of, valid,
};
use vstd::prelude::*;

verus! {

/// The variables of a set that is represented by a conjunction: the levels of `vars` and of the
/// nodes that follow along the then-edges.
pub open spec fn var_set(nodes: Seq<InnerNode>, vars: Edge) -> Seq<LevelNo>
    decreases vars.node,
{
    if vars.node == 0 || vars.node > nodes.len() {
        seq![]
    } else {
        let n = nodes[vars.node - 1];
        if n.t.node < vars.node {
            seq![n.level] + var_set(nodes, n.t)
        } else {
            seq![]
        }
    }
}

/// The operator is a quantifier.
pub open spec fn is_quantifier(op: BCDDOp) -> bool {
    op == BCDDOp::Forall || op == BCDDOp::Exist || op == BCDDOp::Unique
}

/// The value of a quantifier from the values for both values of its variable.
pub open spec fn quant_value(op: BCDDOp, a: bool, b: bool) -> bool {
    match op {
        BCDDOp::Forall => a && b,
        BCDDOp::Exist => a || b,
        _ => a != b,
    }
}

/// The truth value of `f`, quantified by `op` over each of `vars`, under the assignment `env`.
pub open spec fn quantify(
    op: BCDDOp,
    nodes: Seq<InnerNode>,
    f: Edge,
    vars: Seq<LevelNo>,
    env: Set<LevelNo>,
) -> bool
    decreases vars.len(),
{
    if vars.len() == 0 {
        eval(nodes, f, env)
    } else {
        quant_value(
            op,
            quantify(op, nodes, f, vars.drop_first(), assign(env, vars[0], true)),
            quantify(op, nodes, f, vars.drop_first(), assign(env, vars[0], false)),
        )
    }
}

/// The result of a quantification that needs no recursion, if it is one: no variable at the level of
/// `f` or below is quantified universally or existentially, nothing is quantified uniquely, or a
/// variable above `f` is (`f` does not depend on it, so that both cofactors are the same).
pub open spec fn quant_trivial(
    nodes: Seq<InnerNode>,
    op: BCDDOp,
    f: Edge,
    vars: Edge,
) -> Option<Edge> {
    let vs = var_set(nodes, vars);
    if op != BCDDOp::Unique {
        if forall|i: int| 0 <= i < vs.len() ==> #[trigger] vs[i] < level_of(nodes, f) {
            Some(f)
        } else {
            None
        }
    } else if vs.len() == 0 {
        Some(f)
    } else if exists|i: int| 0 <= i < vs.len() && #[trigger] vs[i] < level_of(nodes, f) {
        Some(Edge::constant(false))
    } else {
        None
    }
}

/// What is left of the set `vars` without the variables above the level `until`.
pub open spec fn popped(nodes: Seq<InnerNode>, vars: Edge, until: int) -> Edge
    decreases vars.node,
{
    if is_inner(vars) && valid(nodes, vars) && node_of(nodes, vars).level < until && node_of(
        nodes,
        vars,
    ).t.node < vars.node {
        popped(nodes, node_of(nodes, vars).t, until)
    } else {
        vars
    }
}

/// The edge is a conjunction of literals (or constant).
pub open spec fn is_cube(nodes: Seq<InnerNode>, c: Edge) -> bool
    decreases c.node,
{
    if c.node == 0 || c.node > nodes.len() {
        true
    } else {
        let t = then_of(nodes, c);
        let e = else_of(nodes, c);
        if e == Edge::constant(false) {
            t.node < c.node && is_cube(nodes, t)
        } else if t == Edge::constant(false) {
            e.node < c.node && is_cube(nodes, e)
        } else {
            false
        }
    }
}

/// The assignment `env`, changed on the variables of the cube `c` such that every literal holds.
pub open spec fn cube_assign(nodes: Seq<InnerNode>, c: Edge, env: Set<LevelNo>) -> Set<LevelNo>
    decreases c.node,
{
    if c.node == 0 || c.node > nodes.len() {
        env
    } else {
        let t = then_of(nodes, c);
        let e = else_of(nodes, c);
        let positive = e == Edge::constant(false);
        let rest = if positive {
            t
        } else {
            e
        };
        if rest.node < c.node {
            assign(cube_assign(nodes, rest, env), node_of(nodes, c).level, positive)
        } else {
            env
        }
    }
}

/// The assignment under which `f` has the value that it has under `env` once the functions of `m`
/// are substituted for the variables at their levels, all at the same time.
pub open spec fn subst_env(
    nodes: Seq<InnerNode>,
    m: Map<LevelNo, Edge>,
    env: Set<LevelNo>,
) -> Set<LevelNo> {
    Set::new(
        |l: LevelNo|
            if m.contains_key(l) {
                eval(nodes, m[l], env)
            } else {
                env.contains(l)
            },
    )
}

/// The substitution maps to edges of the diagram.
pub open spec fn subst_valid(nodes: Seq<InnerNode>, m: Map<LevelNo, Edge>) -> bool {
    forall|l: LevelNo| #[trigger] m.contains_key(l) ==> valid(nodes, m[l])
}

/// `r` stands for the conjunction (`And`) or the exclusive disjunction (`Xor`) of `f` and `g`.
pub open spec fn is_bin(nodes: Seq<InnerNode>, op: BCDDOp, f: Edge, g: Edge, r: Edge) -> bool {
    &&& valid(nodes, r)
    &&& forall|env: Set<LevelNo>| #[trigger]
        eval(nodes, r, env) == bin_value(op, eval(nodes, f, env), eval(nodes, g, env))
}

/// `r` stands for `if f { g } else { h }`.
pub open spec fn is_ite(nodes: Seq<InnerNode>, f: Edge, g: Edge, h: Edge, r: Edge) -> bool {
    &&& valid(nodes, r)
    &&& forall|env: Set<LevelNo>| #[trigger]
        eval(nodes, r, env) == if eval(nodes, f, env) {
            eval(nodes, g, env)
        } else {
            eval(nodes, h, env)
        }
}

/// `r` stands for `f` with the functions of `m` substituted for the variables at their levels.
pub open spec fn is_substituted(
    nodes: Seq<InnerNode>,
    m: Map<LevelNo, Edge>,
    f: Edge,
    r: Edge,
) -> bool {
    &&& valid(nodes, r)
    &&& forall|env: Set<LevelNo>| #[trigger]
        eval(nodes, r, env) == eval(nodes, f, subst_env(nodes, m, env))
}

/// `r` stands for `f` with the variables of the cube `vars` restricted to its literals.
pub open spec fn is_restricted(nodes: Seq<InnerNode>, f: Edge, vars: Edge, r: Edge) -> bool {
    &&& valid(nodes, r)
    &&& forall|env: Set<LevelNo>| #[trigger]
        eval(nodes, r, env) == eval(nodes, f, cube_assign(nodes, vars, env))
}

/// `r` stands for `f`, quantified by `op` over the variables of the set `vars`.
pub open spec fn is_quantified(
    nodes: Seq<InnerNode>,
    op: BCDDOp,
    f: Edge,
    vars: Edge,
    r: Edge,
) -> bool {
    &&& valid(nodes, r)
    &&& forall|env: Set<LevelNo>| #[trigger]
        eval(nodes, r, env) == quantify(op, nodes, f, var_set(nodes, vars), env)
}

/// `subst` lists, level by level, the function that `m` substitutes for each variable, or the
/// variable itself; all levels of `m` are listed.
pub open spec fn represents(
    nodes: Seq<InnerNode>,
    subst: Seq<Edge>,
    m: Map<LevelNo, Edge>,
) -> bool {
    &&& forall|l: LevelNo| #[trigger] m.contains_key(l) ==> l < subst.len() && subst[l as int] == m[l]
    &&& forall|i: int| 0 <= i < subst.len() ==> valid(nodes, #[trigger] subst[i])
    &&& forall|l: LevelNo, env: Set<LevelNo>|
        l < subst.len() && !m.contains_key(l) ==> #[trigger] eval(nodes, subst[l as int], env)
            == env.contains(l)
}

/// A list of substituted functions keeps its meaning when nodes are added.
pub proof fn lemma_represents_extends(
    a: Seq<InnerNode>,
    b: Seq<InnerNode>,
    levels: LevelNo,
    subst: Seq<Edge>,
    m: Map<LevelNo, Edge>,
)
    requires
        is_diagram(a, levels),
        extends(a, b),
        represents(a, subst, m),
    ensures
        represents(b, subst, m),
{
    lemma_extends(a, b, levels);
    assert forall|i: int| 0 <= i < subst.len() implies valid(b, #[trigger] subst[i]) by {
        assert(valid(a, subst[i]));
    }
    assert forall|l: LevelNo, env: Set<LevelNo>|
        l < subst.len() && !m.contains_key(l) implies #[trigger] eval(b, subst[l as int], env)
        == env.contains(l) by {
        assert(valid(a, subst[l as int]));
        assert(eval(a, subst[l as int], env) == env.contains(l));
    }
}

/// The variables of a set do not change when nodes are added.
pub proof fn lemma_var_set_extends(
    a: Seq<InnerNode>,
    b: Seq<InnerNode>,
    levels: LevelNo,
    vars: Edge,
)
    requires
        is_diagram(a, levels),
        extends(a, b),
        valid(a, vars),
    ensures
        var_set(b, vars) == var_set(a, vars),
    decreases vars.node,
{
    if vars.node != 0 {
        assert(node_ok(a, levels, vars.node - 1));
        assert(b[vars.node - 1] == a[vars.node - 1]);
        lemma_var_set_extends(a, b, levels, a[vars.node - 1].t);
    }
}

/// A quantified function does not change when nodes are added.
pub proof fn lemma_quantify_extends(
    a: Seq<InnerNode>,
    b: Seq<InnerNode>,
    levels: LevelNo,
    op: BCDDOp,
    f: Edge,
    vars: Seq<LevelNo>,
    env: Set<LevelNo>,
)
    requires
        is_diagram(a, levels),
        extends(a, b),
        valid(a, f),
    ensures
        quantify(op, b, f, vars, env) == quantify(op, a, f, vars, env),
    decreases vars.len(),
{
    lemma_extends(a, b, levels);
    if vars.len() > 0 {
        lemma_quantify_extends(
            a,
            b,
            levels,
            op,
            f,
            vars.drop_first(),
            assign(env, vars[0], true),
        );
        lemma_quantify_extends(
            a,
            b,
            levels,
            op,
            f,
            vars.drop_first(),
            assign(env, vars[0], false),
        );
    }
}

/// A cube does not change when nodes are added.
pub proof fn lemma_cube_extends(a: Seq<InnerNode>, b: Seq<InnerNode>, levels: LevelNo, c: Edge)
    requires
        is_diagram(a, levels),
        extends(a, b),
        valid(a, c),
    ensures
        is_cube(b, c) == is_cube(a, c),
        forall|env: Set<LevelNo>| #[trigger] cube_assign(b, c, env) == cube_assign(a, c, env),
    decreases c.node,
{
    if c.node != 0 {
        lemma_cofactors(a, levels, c);
        assert(b[c.node - 1] == a[c.node - 1]);
        lemma_cube_extends(a, b, levels, then_of(a, c));
        lemma_cube_extends(a, b, levels, else_of(a, c));
        assert forall|env: Set<LevelNo>| #[trigger]
            cube_assign(b, c, env) == cube_assign(a, c, env) by {
            assert(cube_assign(b, then_of(a, c), env) == cube_assign(a, then_of(a, c), env));
            assert(cube_assign(b, else_of(a, c), env) == cube_assign(a, else_of(a, c), env));
        }
    }
}

/// A substitution does not change when nodes are added.
pub proof fn lemma_subst_extends(
    a: Seq<InnerNode>,
    b: Seq<InnerNode>,
    levels: LevelNo,
    m: Map<LevelNo, Edge>,
)
    requires
        is_diagram(a, levels),
        extends(a, b),
        subst_valid(a, m),
    ensures
        subst_valid(b, m),
        forall|env: Set<LevelNo>| #[trigger] subst_env(b, m, env) == subst_env(a, m, env),
{
    lemma_extends(a, b, levels);
    assert forall|env: Set<LevelNo>| #[trigger] subst_env(b, m, env) == subst_env(a, m, env) by {
        assert(subst_env(b, m, env) =~= subst_env(a, m, env));
    }
}

/// The variables of a set are listed from top to bottom.
pub proof fn lemma_var_set_below(nodes: Seq<InnerNode>, levels: LevelNo, vars: Edge)
    requires
        is_diagram(nodes, levels),
        valid(nodes, vars),
    ensures
        forall|i: int|
            0 <= i < var_set(nodes, vars).len() ==> #[trigger] var_set(nodes, vars)[i] >= level_of(
                nodes,
                vars,
            ),
        is_inner(vars) ==> var_set(nodes, vars).len() > 0 && var_set(nodes, vars)[0] == node_of(
            nodes,
            vars,
        ).level && var_set(nodes, vars).drop_first() == var_set(nodes, node_of(nodes, vars).t),
    decreases vars.node,
{
    if vars.node != 0 {
        let n = nodes[vars.node - 1];
        assert(node_ok(nodes, levels, vars.node - 1));
        lemma_var_set_below(nodes, levels, n.t);
        let rest = var_set(nodes, n.t);
        let all = var_set(nodes, vars);
        assert(all == seq![n.level] + rest);
        assert(all.drop_first() =~= rest);
        assert forall|i: int| 0 <= i < all.len() implies #[trigger] all[i] >= n.level by {
            if i > 0 {
                assert(all[i] == rest[i - 1]);
            }
        }
    }
}

/// Which quantifications need no recursion, by the top variables.
pub proof fn lemma_quant_trivial(
    nodes: Seq<InnerNode>,
    levels: LevelNo,
    op: BCDDOp,
    f: Edge,
    vars: Edge,
)
    requires
        is_diagram(nodes, levels),
        valid(nodes, vars),
    ensures
        op != BCDDOp::Unique ==> quant_trivial(nodes, op, f, vars) is None || quant_trivial(
            nodes,
            op,
            f,
            vars,
        ) == Some(f),
        op == BCDDOp::Unique ==> quant_trivial(nodes, op, f, vars) == if !is_inner(vars) {
            Some(f)
        } else if level_of(nodes, vars) < level_of(nodes, f) {
            Some(Edge::constant(false))
        } else {
            None
        },
{
    lemma_var_set_below(nodes, levels, vars);
    let vs = var_set(nodes, vars);
    if is_inner(vars) {
        assert(vs[0] == level_of(nodes, vars));
    }
}

/// Quantification depends on the variables at the level of `f` and below only.
pub proof fn lemma_quantify_agree(
    nodes: Seq<InnerNode>,
    levels: LevelNo,
    op: BCDDOp,
    f: Edge,
    vars: Seq<LevelNo>,
    env1: Set<LevelNo>,
    env2: Set<LevelNo>,
)
    requires
        is_diagram(nodes, levels),
        valid(nodes, f),
        forall|l: LevelNo|
            l >= level_of(nodes, f) ==> #[trigger] env1.contains(l) == env2.contains(l),
    ensures
        quantify(op, nodes, f, vars, env1) == quantify(op, nodes, f, vars, env2),
    decreases vars.len(),
{
    if vars.len() == 0 {
        lemma_eval_agree(nodes, levels, f, env1, env2);
    } else {
        lemma_quantify_agree(
            nodes,
            levels,
            op,
            f,
            vars.drop_first(),
            assign(env1, vars[0], true),
            assign(env2, vars[0], true),
        );
        lemma_quantify_agree(
            nodes,
            levels,
            op,
            f,
            vars.drop_first(),
            assign(env1, vars[0], false),
            assign(env2, vars[0], false),
        );
    }
}

/// Quantification commutes with the decision on a variable that is not quantified.
pub proof fn lemma_quantify_decision(
    nodes: Seq<InnerNode>,
    levels: LevelNo,
    op: BCDDOp,
    f: Edge,
    vars: Seq<LevelNo>,
    env: Set<LevelNo>,
)
    requires
        is_diagram(nodes, levels),
        valid(nodes, f),
        is_inner(f),
        forall|i: int| 0 <= i < vars.len() ==> #[trigger] vars[i] != node_of(nodes, f).level,
    ensures
        quantify(op, nodes, f, vars, env) == if env.contains(node_of(nodes, f).level) {
            quantify(op, nodes, then_of(nodes, f), vars, env)
        } else {
            quantify(op, nodes, else_of(nodes, f), vars, env)
        },
    decreases vars.len(),
{
    lemma_cofactors(nodes, levels, f);
    if vars.len() > 0 {
        let rest = vars.drop_first();
        assert forall|i: int| 0 <= i < rest.len() implies #[trigger] rest[i] != node_of(
            nodes,
            f,
        ).level by {
            assert(rest[i] == vars[i + 1]);
        }
        lemma_quantify_decision(nodes, levels, op, f, rest, assign(env, vars[0], true));
        lemma_quantify_decision(nodes, levels, op, f, rest, assign(env, vars[0], false));
    }
}

/// A variable above `f` can be dropped from the set for the universal and the existential
/// quantifier; the unique quantifier yields "false" for it.
pub proof fn lemma_quantify_above(
    nodes: Seq<InnerNode>,
    levels: LevelNo,
    op: BCDDOp,
    f: Edge,
    vars: Seq<LevelNo>,
    env: Set<LevelNo>,
)
    requires
        is_diagram(nodes, levels),
        valid(nodes, f),
        vars.len() > 0,
        vars[0] < level_of(nodes, f),
    ensures
        quantify(op, nodes, f, vars, env) == quant_value(
            op,
            quantify(op, nodes, f, vars.drop_first(), env),
            quantify(op, nodes, f, vars.drop_first(), env),
        ),
{
    let rest = vars.drop_first();
    lemma_quantify_agree(nodes, levels, op, f, rest, assign(env, vars[0], true), env);
    lemma_quantify_agree(nodes, levels, op, f, rest, assign(env, vars[0], false), env);
}

/// Variables above `f` can be dropped from the set for the universal and the existential
/// quantifier.
pub proof fn lemma_quantify_skip(
    nodes: Seq<InnerNode>,
    levels: LevelNo,
    op: BCDDOp,
    f: Edge,
    vars: Seq<LevelNo>,
    k: int,
    env: Set<LevelNo>,
)
    requires
        is_diagram(nodes, levels),
        valid(nodes, f),
        op == BCDDOp::Forall || op == BCDDOp::Exist,
        0 <= k <= vars.len(),
        forall|i: int| 0 <= i < k ==> #[trigger] vars[i] < level_of(nodes, f),
    ensures
        quantify(op, nodes, f, vars, env) == quantify(op, nodes, f, vars.skip(k), env),
    decreases k,
{
    if k == 0 {
        assert(vars.skip(0) =~= vars);
    } else {
        let rest = vars.drop_first();
        lemma_quantify_above(nodes, levels, op, f, vars, env);
        assert forall|i: int| 0 <= i < k - 1 implies #[trigger] rest[i] < level_of(nodes, f) by {
            assert(rest[i] == vars[i + 1]);
        }
        lemma_quantify_skip(nodes, levels, op, f, rest, k - 1, env);
        assert(rest.skip(k - 1) =~= vars.skip(k));
    }
}

/// Quantification over the top variable of `f` combines both cofactors.
pub proof fn lemma_quantify_top(
    nodes: Seq<InnerNode>,
    levels: LevelNo,
    op: BCDDOp,
    f: Edge,
    vars: Seq<LevelNo>,
    env: Set<LevelNo>,
)
    requires
        is_diagram(nodes, levels),
        valid(nodes, f),
        is_inner(f),
        vars.len() > 0,
        vars[0] == node_of(nodes, f).level,
        forall|i: int| 1 <= i < vars.len() ==> #[trigger] vars[i] > vars[0],
    ensures
        quantify(op, nodes, f, vars, env) == quant_value(
            op,
            quantify(op, nodes, then_of(nodes, f), vars.drop_first(), env),
            quantify(op, nodes, else_of(nodes, f), vars.drop_first(), env),
        ),
{
    let rest = vars.drop_first();
    let env1 = assign(env, vars[0], true);
    let env0 = assign(env, vars[0], false);
    assert forall|i: int| 0 <= i < rest.len() implies #[trigger] rest[i] != node_of(
        nodes,
        f,
    ).level by {
        assert(rest[i] == vars[i + 1]);
    }
    lemma_cofactors(nodes, levels, f);
    lemma_quantify_decision(nodes, levels, op, f, rest, env1);
    lemma_quantify_decision(nodes, levels, op, f, rest, env0);
    lemma_quantify_agree(nodes, levels, op, then_of(nodes, f), rest, env1, env);
    lemma_quantify_agree(nodes, levels, op, else_of(nodes, f), rest, env0, env);
}

/// A cube changes no variable above it.
pub proof fn lemma_cube_below(
    nodes: Seq<InnerNode>,
    levels: LevelNo,
    c: Edge,
    env: Set<LevelNo>,
    l: LevelNo,
)
    requires
        is_diagram(nodes, levels),
        valid(nodes, c),
        l < level_of(nodes, c),
    ensures
        cube_assign(nodes, c, env).contains(l) == env.contains(l),
    decreases c.node,
{
    if c.node != 0 {
        lemma_cofactors(nodes, levels, c);
        lemma_cube_below(nodes, levels, then_of(nodes, c), env, l);
        lemma_cube_below(nodes, levels, else_of(nodes, c), env, l);
    }
}

} // verus!
