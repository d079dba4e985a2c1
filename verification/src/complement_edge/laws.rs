//! Laws of the diagrams and of the operations on them.

use super::apply_rec_mt::result_or_full;
use super::canonicity::{equivalent, lemma_canonical};
use super::edge::{BCDDOp, Edge, InnerNode, LevelNo};
use super::manager::Manager;
use super::operators::{cube_assign, is_cube, quantify, subst_env, var_set};
use super::semantics::{
    assign, else_of, eval, is_diagram, is_inner, lemma_cofactors, lemma_eval_agree,
    lemma_eval_flipped, lemma_extends, level_of, node_of, then_of, valid,
};
use super::valuation::{depth, lemma_sat_count_double, sat_count};
use vstd::arithmetic::power2::{lemma2_to64, lemma_pow2_adds, lemma_pow2_unfold, pow2};
use vstd::prelude::*;

verus! {

// ---------------------------------------------------------------------------------------------
// Canonicity

/// Edges are canonical: two edges stand for the same function exactly if they are the same.
pub proof fn law_canonical(nodes: Seq<InnerNode>, levels: LevelNo, a: Edge, b: Edge)
    requires
        is_diagram(nodes, levels),
        valid(nodes, a),
        valid(nodes, b),
    ensures
        a == b <==> equivalent(nodes, a, b),
{
    if equivalent(nodes, a, b) {
        lemma_canonical(nodes, levels, a, b);
    }
}

/// Only the edges to the terminal stand for constant functions: a function is unsatisfiable exactly
/// if its edge is the one for "false", and a tautology exactly if it is the one for "true".
pub proof fn law_constants(nodes: Seq<InnerNode>, levels: LevelNo, e: Edge)
    requires
        is_diagram(nodes, levels),
        valid(nodes, e),
    ensures
        e == Edge::constant(false) <==> forall|env: Set<LevelNo>| !#[trigger] eval(nodes, e, env),
        e == Edge::constant(true) <==> forall|env: Set<LevelNo>| #[trigger] eval(nodes, e, env),
{
    if forall|env: Set<LevelNo>| !#[trigger] eval(nodes, e, env) {
        law_canonical(nodes, levels, e, Edge::constant(false));
    }
    if forall|env: Set<LevelNo>| #[trigger] eval(nodes, e, env) {
        law_canonical(nodes, levels, e, Edge::constant(true));
    }
}

/// Operations that compute the same function return the same edge, however many nodes are added in
/// between.
pub proof fn law_same_result(
    m0: Manager,
    m1: Manager,
    m2: Manager,
    m3: Manager,
    a: Edge,
    b: Edge,
    value: spec_fn(Set<LevelNo>) -> bool,
)
    requires
        result_or_full(m0, m1, Ok(a), value),
        m1.grows_to(&m2),
        result_or_full(m2, m3, Ok(b), value),
    ensures
        a == b,
{
    assert forall|i: int| 0 <= i < m1.nodes().len() implies #[trigger] m3.nodes()[i]
        == m1.nodes()[i] by {
        assert(m2.nodes()[i] == m1.nodes()[i]);
        assert(m3.nodes()[i] == m2.nodes()[i]);
    }
    lemma_extends(m1.nodes(), m3.nodes(), m1.levels());
    assert forall|env: Set<LevelNo>| #[trigger]
        eval(m3.nodes(), a, env) == eval(m3.nodes(), b, env) by {
        assert(eval(m1.nodes(), a, env) == value(env));
        assert(eval(m3.nodes(), b, env) == value(env));
    }
    law_canonical(m3.nodes(), m3.levels(), a, b);
}

/// Negating twice yields the same edge.
pub proof fn law_double_negation(e: Edge)
    ensures
        e.flipped(true).flipped(true) == e,
{
}

// ---------------------------------------------------------------------------------------------
// Quantification

/// Both assignments give the same value to every variable that is not in `vars`.
pub open spec fn same_outside(vars: Seq<LevelNo>, a: Set<LevelNo>, b: Set<LevelNo>) -> bool {
    forall|l: LevelNo| !vars.contains(l) ==> #[trigger] a.contains(l) == b.contains(l)
}

/// Two assignments that agree except on the first variable and the rest.
proof fn lemma_same_outside_step(vars: Seq<LevelNo>, env: Set<LevelNo>, other: Set<LevelNo>)
    requires
        vars.len() > 0,
        same_outside(vars, env, other),
    ensures
        same_outside(vars.drop_first(), assign(env, vars[0], other.contains(vars[0])), other),
{
    let next = assign(env, vars[0], other.contains(vars[0]));
    assert forall|l: LevelNo| !vars.drop_first().contains(l) implies #[trigger] next.contains(l)
        == other.contains(l) by {
        if l != vars[0] {
            if vars.contains(l) {
                let k = choose|k: int| 0 <= k < vars.len() && vars[k] == l;
                assert(vars.drop_first()[k - 1] == l);
            }
        }
    }
}

/// The converse of [`lemma_same_outside_step`].
proof fn lemma_same_outside_back(
    vars: Seq<LevelNo>,
    env: Set<LevelNo>,
    other: Set<LevelNo>,
    value: bool,
)
    requires
        vars.len() > 0,
        same_outside(vars.drop_first(), assign(env, vars[0], value), other),
    ensures
        same_outside(vars, env, other),
{
    assert forall|l: LevelNo| !vars.contains(l) implies #[trigger] env.contains(l)
        == other.contains(l) by {
        if vars.drop_first().contains(l) {
            let k = choose|k: int|
                0 <= k < vars.drop_first().len() && vars.drop_first()[k] == l;
            assert(vars[k + 1] == l);
        }
        assert(vars[0] != l);
        assert(assign(env, vars[0], value).contains(l) == other.contains(l));
    }
}

/// Universal quantification holds exactly if the function is true for all values of the variables.
pub proof fn law_forall(
    nodes: Seq<InnerNode>,
    f: Edge,
    vars: Seq<LevelNo>,
    env: Set<LevelNo>,
)
    ensures
        quantify(BCDDOp::Forall, nodes, f, vars, env) <==> forall|other: Set<LevelNo>| #[trigger]
            same_outside(vars, env, other) ==> eval(nodes, f, other),
    decreases vars.len(),
{
    let op = BCDDOp::Forall;
    if vars.len() == 0 {
        assert forall|other: Set<LevelNo>| #[trigger] same_outside(vars, env, other) implies other
            == env by {
            assert(other =~= env);
        }
        assert(same_outside(vars, env, env));
    } else {
        let rest = vars.drop_first();
        let yes = assign(env, vars[0], true);
        let no = assign(env, vars[0], false);
        law_forall(nodes, f, rest, yes);
        law_forall(nodes, f, rest, no);
        if quantify(op, nodes, f, vars, env) {
            assert forall|other: Set<LevelNo>| #[trigger]
                same_outside(vars, env, other) implies eval(nodes, f, other) by {
                lemma_same_outside_step(vars, env, other);
            }
        }
        if forall|other: Set<LevelNo>| #[trigger]
            same_outside(vars, env, other) ==> eval(nodes, f, other) {
            assert forall|other: Set<LevelNo>| #[trigger]
                same_outside(rest, yes, other) implies eval(nodes, f, other) by {
                lemma_same_outside_back(vars, env, other, true);
            }
            assert forall|other: Set<LevelNo>| #[trigger]
                same_outside(rest, no, other) implies eval(nodes, f, other) by {
                lemma_same_outside_back(vars, env, other, false);
            }
        }
    }
}

/// Quantifiers are dual: a function is true for some values of the variables exactly if its negation
/// is not true for all of them.
pub proof fn law_duality(
    nodes: Seq<InnerNode>,
    f: Edge,
    vars: Seq<LevelNo>,
    env: Set<LevelNo>,
)
    ensures
        quantify(BCDDOp::Exist, nodes, f, vars, env) == !quantify(
            BCDDOp::Forall,
            nodes,
            f.flipped(true),
            vars,
            env,
        ),
    decreases vars.len(),
{
    if vars.len() == 0 {
        lemma_eval_flipped(nodes, f, true, env);
    } else {
        law_duality(nodes, f, vars.drop_first(), assign(env, vars[0], true));
        law_duality(nodes, f, vars.drop_first(), assign(env, vars[0], false));
    }
}

/// Existential quantification holds exactly if the function is true for some values of the
/// variables.
pub proof fn law_exist(
    nodes: Seq<InnerNode>,
    f: Edge,
    vars: Seq<LevelNo>,
    env: Set<LevelNo>,
)
    ensures
        quantify(BCDDOp::Exist, nodes, f, vars, env) <==> exists|other: Set<LevelNo>| #[trigger]
            same_outside(vars, env, other) && eval(nodes, f, other),
{
    law_duality(nodes, f, vars, env);
    law_forall(nodes, f.flipped(true), vars, env);
    assert forall|other: Set<LevelNo>| #[trigger]
        same_outside(vars, env, other) implies eval(nodes, f.flipped(true), other) == !eval(
        nodes,
        f,
        other,
    ) by {
        lemma_eval_flipped(nodes, f, true, other);
    }
}

/// The assignments that differ from `env` on `vars` only and satisfy `f`.
pub open spec fn models_near(
    nodes: Seq<InnerNode>,
    f: Edge,
    vars: Seq<LevelNo>,
    env: Set<LevelNo>,
) -> Set<Set<LevelNo>> {
    Set::new(|other: Set<LevelNo>| same_outside(vars, env, other) && eval(nodes, f, other))
}

/// Unique quantification over variables of which none occurs twice holds exactly if the function is
/// true for an odd number of values of the variables.
pub proof fn law_unique(
    nodes: Seq<InnerNode>,
    f: Edge,
    vars: Seq<LevelNo>,
    env: Set<LevelNo>,
)
    requires
        vars.no_duplicates(),
    ensures
        models_near(nodes, f, vars, env).finite(),
        quantify(BCDDOp::Unique, nodes, f, vars, env) <==> models_near(nodes, f, vars, env).len() % 2
            == 1,
    decreases vars.len(),
{
    let all = models_near(nodes, f, vars, env);
    if vars.len() == 0 {
        assert forall|other: Set<LevelNo>| #[trigger] same_outside(vars, env, other) implies other
            == env by {
            assert(other =~= env);
        }
        assert(same_outside(vars, env, env));
        if eval(nodes, f, env) {
            assert(all =~= Set::<Set<LevelNo>>::empty().insert(env));
        } else {
            assert(all =~= Set::<Set<LevelNo>>::empty());
        }
    } else {
        let rest = vars.drop_first();
        let yes = assign(env, vars[0], true);
        let no = assign(env, vars[0], false);
        law_unique(nodes, f, rest, yes);
        law_unique(nodes, f, rest, no);
        let a = models_near(nodes, f, rest, yes);
        let b = models_near(nodes, f, rest, no);
        assert(!rest.contains(vars[0])) by {
            if rest.contains(vars[0]) {
                let k = choose|k: int| 0 <= k < rest.len() && rest[k] == vars[0];
                assert(vars[k + 1] == vars[0]);
            }
        }
        assert forall|other: Set<LevelNo>| a.contains(other) implies other.contains(vars[0]) by {
            assert(yes.contains(vars[0]) == other.contains(vars[0]));
        }
        assert forall|other: Set<LevelNo>| b.contains(other) implies !other.contains(vars[0]) by {
            assert(no.contains(vars[0]) == other.contains(vars[0]));
        }
        assert forall|other: Set<LevelNo>| all.contains(other) == a.union(b).contains(other) by {
            if all.contains(other) {
                lemma_same_outside_step(vars, env, other);
            }
            if a.contains(other) {
                lemma_same_outside_back(vars, env, other, true);
            }
            if b.contains(other) {
                lemma_same_outside_back(vars, env, other, false);
            }
        }
        assert(all =~= a.union(b));
        assert(a.disjoint(b));
        vstd::set_lib::lemma_set_disjoint_lens(a, b);
    }
}

/// A quantified function does not depend on the variables it is quantified over.
pub proof fn law_quantified_independent(
    op: BCDDOp,
    nodes: Seq<InnerNode>,
    f: Edge,
    vars: Seq<LevelNo>,
    env: Set<LevelNo>,
    l: LevelNo,
    value: bool,
)
    requires
        vars.contains(l),
    ensures
        quantify(op, nodes, f, vars, assign(env, l, value)) == quantify(op, nodes, f, vars, env),
    decreases vars.len(),
{
    let rest = vars.drop_first();
    let changed = assign(env, l, value);
    if vars[0] == l {
        assert(assign(changed, l, true) =~= assign(env, l, true));
        assert(assign(changed, l, false) =~= assign(env, l, false));
    } else {
        let k = choose|k: int| 0 <= k < vars.len() && vars[k] == l;
        assert(rest[k - 1] == l);
        let yes = assign(env, vars[0], true);
        let no = assign(env, vars[0], false);
        assert(assign(changed, vars[0], true) =~= assign(yes, l, value));
        assert(assign(changed, vars[0], false) =~= assign(no, l, value));
        law_quantified_independent(op, nodes, f, rest, yes, l, value);
        law_quantified_independent(op, nodes, f, rest, no, l, value);
    }
}

/// The edge is a conjunction of variables (or "true").
pub open spec fn is_var_set(nodes: Seq<InnerNode>, vars: Edge) -> bool
    decreases vars.node,
{
    &&& !vars.neg()
    &&& vars.node != 0 && vars.node <= nodes.len() ==> {
        let n = nodes[vars.node - 1];
        n.e == Edge::constant(false) && n.t.node < vars.node && is_var_set(nodes, n.t)
    }
}

/// A conjunction of variables stands for the set of its variables.
pub proof fn law_var_set(nodes: Seq<InnerNode>, levels: LevelNo, vars: Edge, env: Set<LevelNo>)
    requires
        is_diagram(nodes, levels),
        valid(nodes, vars),
        is_var_set(nodes, vars),
    ensures
        eval(nodes, vars, env) <==> forall|l: LevelNo| #[trigger]
            var_set(nodes, vars).contains(l) ==> env.contains(l),
    decreases vars.node,
{
    if is_inner(vars) {
        lemma_cofactors(nodes, levels, vars);
        let n = node_of(nodes, vars);
        law_var_set(nodes, levels, n.t, env);
        let rest = var_set(nodes, n.t);
        let all = var_set(nodes, vars);
        assert(all == seq![n.level] + rest);
        assert forall|l: LevelNo| #[trigger] all.contains(l) <==> l == n.level || rest.contains(l) by {
            if all.contains(l) {
                let k = choose|k: int| 0 <= k < all.len() && all[k] == l;
                if k > 0 {
                    assert(rest[k - 1] == l);
                }
            }
            if rest.contains(l) {
                let k = choose|k: int| 0 <= k < rest.len() && rest[k] == l;
                assert(all[k + 1] == l);
            }
            assert(all[0] == n.level);
        }
        assert(then_of(nodes, vars) == n.t);
        assert(else_of(nodes, vars) == n.e);
        assert(eval(nodes, vars, env) == (env.contains(n.level) && eval(nodes, n.t, env)));
        if eval(nodes, vars, env) {
            assert forall|l: LevelNo| #[trigger] all.contains(l) implies env.contains(l) by {
                if l != n.level {
                    assert(rest.contains(l));
                }
            }
        }
        if forall|l: LevelNo| #[trigger] all.contains(l) ==> env.contains(l) {
            assert(all.contains(n.level));
            assert forall|l: LevelNo| #[trigger] rest.contains(l) implies env.contains(l) by {
                assert(all.contains(l));
            }
        }
    }
}

// ---------------------------------------------------------------------------------------------
// Restriction

/// The variables of a cube.
pub open spec fn cube_vars(nodes: Seq<InnerNode>, c: Edge, l: LevelNo) -> bool
    decreases c.node,
{
    if c.node == 0 || c.node > nodes.len() {
        false
    } else {
        let t = then_of(nodes, c);
        let e = else_of(nodes, c);
        let rest = if e == Edge::constant(false) {
            t
        } else {
            e
        };
        node_of(nodes, c).level == l || (rest.node < c.node && cube_vars(nodes, rest, l))
    }
}

/// Restriction only affects the variables of the cube.
pub proof fn law_restrict_outside(
    nodes: Seq<InnerNode>,
    levels: LevelNo,
    c: Edge,
    env: Set<LevelNo>,
    l: LevelNo,
)
    requires
        is_diagram(nodes, levels),
        valid(nodes, c),
        !cube_vars(nodes, c, l),
    ensures
        cube_assign(nodes, c, env).contains(l) == env.contains(l),
    decreases c.node,
{
    if is_inner(c) {
        lemma_cofactors(nodes, levels, c);
        let rest = if else_of(nodes, c) == Edge::constant(false) {
            then_of(nodes, c)
        } else {
            else_of(nodes, c)
        };
        law_restrict_outside(nodes, levels, rest, env, l);
    }
}

/// A cube other than "false" holds once its variables are restricted to its literals.
pub proof fn law_cube_holds(nodes: Seq<InnerNode>, levels: LevelNo, c: Edge, env: Set<LevelNo>)
    requires
        is_diagram(nodes, levels),
        valid(nodes, c),
        is_cube(nodes, c),
        c != Edge::constant(false),
    ensures
        eval(nodes, c, cube_assign(nodes, c, env)),
    decreases c.node,
{
    if is_inner(c) {
        lemma_cofactors(nodes, levels, c);
        let l = node_of(nodes, c).level;
        let positive = else_of(nodes, c) == Edge::constant(false);
        let rest = if positive {
            then_of(nodes, c)
        } else {
            else_of(nodes, c)
        };
        law_cube_holds(nodes, levels, rest, env);
        let inner = cube_assign(nodes, rest, env);
        lemma_eval_agree(nodes, levels, rest, inner, assign(inner, l, positive));
    }
}

/// Restriction agrees with the function wherever the literals hold.
pub proof fn law_restrict_agrees(
    nodes: Seq<InnerNode>,
    levels: LevelNo,
    f: Edge,
    c: Edge,
    env: Set<LevelNo>,
)
    requires
        is_diagram(nodes, levels),
        valid(nodes, f),
        valid(nodes, c),
        is_cube(nodes, c),
        eval(nodes, c, env),
    ensures
        cube_assign(nodes, c, env) == env,
        eval(nodes, f, cube_assign(nodes, c, env)) == eval(nodes, f, env),
    decreases c.node,
{
    if is_inner(c) {
        lemma_cofactors(nodes, levels, c);
        let l = node_of(nodes, c).level;
        let positive = else_of(nodes, c) == Edge::constant(false);
        let rest = if positive {
            then_of(nodes, c)
        } else {
            else_of(nodes, c)
        };
        law_restrict_agrees(nodes, levels, f, rest, env);
        assert(assign(env, l, positive) =~= env);
    }
}

/// A restricted function does not depend on the variables it is restricted by.
pub proof fn law_restrict_independent(
    nodes: Seq<InnerNode>,
    levels: LevelNo,
    c: Edge,
    env: Set<LevelNo>,
    l: LevelNo,
    value: bool,
)
    requires
        is_diagram(nodes, levels),
        valid(nodes, c),
        cube_vars(nodes, c, l),
    ensures
        cube_assign(nodes, c, assign(env, l, value)) == cube_assign(nodes, c, env),
    decreases c.node,
{
    lemma_cofactors(nodes, levels, c);
    let changed = assign(env, l, value);
    let top = node_of(nodes, c).level;
    let positive = else_of(nodes, c) == Edge::constant(false);
    let rest = if positive {
        then_of(nodes, c)
    } else {
        else_of(nodes, c)
    };
    if cube_vars(nodes, rest, l) {
        law_restrict_independent(nodes, levels, rest, env, l, value);
    } else {
        lemma_cube_assign_change(nodes, levels, rest, env, l, value);
        assert(assign(cube_assign(nodes, rest, changed), top, positive) =~= assign(
            cube_assign(nodes, rest, env),
            top,
            positive,
        ));
    }
}

/// Changing a variable that is not in the cube before or after restricting makes no difference.
proof fn lemma_cube_assign_change(
    nodes: Seq<InnerNode>,
    levels: LevelNo,
    c: Edge,
    env: Set<LevelNo>,
    l: LevelNo,
    value: bool,
)
    requires
        is_diagram(nodes, levels),
        valid(nodes, c),
        !cube_vars(nodes, c, l),
    ensures
        cube_assign(nodes, c, assign(env, l, value)) == assign(
            cube_assign(nodes, c, env),
            l,
            value,
        ),
    decreases c.node,
{
    if is_inner(c) {
        lemma_cofactors(nodes, levels, c);
        let top = node_of(nodes, c).level;
        let positive = else_of(nodes, c) == Edge::constant(false);
        let rest = if positive {
            then_of(nodes, c)
        } else {
            else_of(nodes, c)
        };
        lemma_cube_assign_change(nodes, levels, rest, env, l, value);
        let inner = cube_assign(nodes, rest, env);
        assert(assign(assign(inner, l, value), top, positive) =~= assign(
            assign(inner, top, positive),
            l,
            value,
        ));
    }
}

// ---------------------------------------------------------------------------------------------
// Substitution

/// Substituting nothing changes nothing.
pub proof fn law_substitute_nothing(nodes: Seq<InnerNode>, f: Edge, env: Set<LevelNo>)
    ensures
        eval(nodes, f, subst_env(nodes, Map::empty(), env)) == eval(nodes, f, env),
{
    assert(subst_env(nodes, Map::empty(), env) =~= env);
}

/// Substituting a function for a variable turns the variable into that function, and leaves all
/// variables that nothing is substituted for as they are.
pub proof fn law_substitute_variable(
    nodes: Seq<InnerNode>,
    m: Map<LevelNo, Edge>,
    var: Edge,
    l: LevelNo,
    env: Set<LevelNo>,
)
    requires
        forall|x: Set<LevelNo>| #[trigger] eval(nodes, var, x) == x.contains(l),
    ensures
        eval(nodes, var, subst_env(nodes, m, env)) == if m.contains_key(l) {
            eval(nodes, m[l], env)
        } else {
            env.contains(l)
        },
{
    let inner = subst_env(nodes, m, env);
    assert(eval(nodes, var, inner) == inner.contains(l));
}

// ---------------------------------------------------------------------------------------------
// Number of satisfying assignments

/// The assignments to the variables at the levels from `low` up to `high` that satisfy `e`.
pub open spec fn models(nodes: Seq<InnerNode>, e: Edge, low: int, high: int) -> Set<Set<LevelNo>> {
    Set::new(
        |env: Set<LevelNo>|
            (forall|l: LevelNo| #[trigger] env.contains(l) ==> low <= l < high) && eval(
                nodes,
                e,
                env,
            ),
    )
}

/// Edges at or below a level are at most as deep as there are levels left.
proof fn lemma_depth_level(nodes: Seq<InnerNode>, levels: LevelNo, e: Edge)
    requires
        is_diagram(nodes, levels),
        valid(nodes, e),
    ensures
        is_inner(e) ==> depth(nodes, e) <= levels - level_of(nodes, e),
        !is_inner(e) ==> depth(nodes, e) == 0,
    decreases e.node,
{
    if is_inner(e) {
        lemma_cofactors(nodes, levels, e);
        let n = node_of(nodes, e);
        let t = then_of(nodes, e);
        let el = else_of(nodes, e);
        lemma_depth_level(nodes, levels, n.t);
        lemma_depth_level(nodes, levels, n.e);
    }
}

/// Assignments are split by the value of the variable at the lowest level.
proof fn lemma_models_split(
    nodes: Seq<InnerNode>,
    levels: LevelNo,
    e: Edge,
    t: Edge,
    el: Edge,
    low: LevelNo,
)
    requires
        is_diagram(nodes, levels),
        valid(nodes, t),
        valid(nodes, el),
        low < levels,
        level_of(nodes, t) > low,
        level_of(nodes, el) > low,
        forall|env: Set<LevelNo>| #[trigger]
            eval(nodes, e, env) == if env.contains(low) {
                eval(nodes, t, env)
            } else {
                eval(nodes, el, env)
            },
        models(nodes, t, low + 1, levels as int).finite(),
        models(nodes, el, low + 1, levels as int).finite(),
    ensures
        models(nodes, e, low as int, levels as int).finite(),
        models(nodes, e, low as int, levels as int).len() == models(
            nodes,
            t,
            low + 1,
            levels as int,
        ).len() + models(nodes, el, low + 1, levels as int).len(),
{
    let all = models(nodes, e, low as int, levels as int);
    let a = models(nodes, t, low + 1, levels as int);
    let b = models(nodes, el, low + 1, levels as int);
    let f = |env: Set<LevelNo>| env.insert(low);
    let with = a.map(f);
    assert forall|x: Set<LevelNo>, y: Set<LevelNo>|
        a.contains(x) && a.contains(y) && #[trigger] f(x) == #[trigger] f(y) implies x == y by {
        assert(!x.contains(low));
        assert(!y.contains(low));
        assert(x =~= f(x).remove(low));
        assert(y =~= f(y).remove(low));
    }
    a.lemma_map_finite(f);
    lemma_map_len(a, f);
    assert forall|env: Set<LevelNo>| all.contains(env) == with.union(b).contains(env) by {
        if all.contains(env) {
            if env.contains(low) {
                let less = env.remove(low);
                lemma_eval_agree(nodes, levels, t, env, less);
                assert forall|l: LevelNo| #[trigger] less.contains(l) implies low + 1 <= l
                    < levels by {
                    assert(env.contains(l));
                }
                assert(a.contains(less));
                assert(f(less) =~= env);
                assert(with.contains(env));
            } else {
                assert(b.contains(env));
            }
        }
        if with.contains(env) {
            let less = choose|x: Set<LevelNo>| a.contains(x) && f(x) == env;
            lemma_eval_agree(nodes, levels, t, env, less);
            assert forall|l: LevelNo| #[trigger] env.contains(l) implies low <= l < levels by {
                if l != low {
                    assert(less.contains(l));
                }
            }
            assert(env.contains(low));
        }
        if b.contains(env) {
            assert(!env.contains(low));
            assert forall|l: LevelNo| #[trigger] env.contains(l) implies low <= l < levels by {}
        }
    }
    assert(all =~= with.union(b));
    assert(with.disjoint(b)) by {
        assert forall|env: Set<LevelNo>| with.contains(env) implies !b.contains(env) by {
            let less = choose|x: Set<LevelNo>| a.contains(x) && f(x) == env;
            assert(env.contains(low));
        }
    }
    vstd::set_lib::lemma_set_disjoint_lens(with, b);
}

/// Mapping a set one to one keeps its size.
proof fn lemma_map_len(s: Set<Set<LevelNo>>, f: spec_fn(Set<LevelNo>) -> Set<LevelNo>)
    requires
        s.finite(),
        forall|x: Set<LevelNo>, y: Set<LevelNo>|
            s.contains(x) && s.contains(y) && #[trigger] f(x) == #[trigger] f(y) ==> x == y,
    ensures
        s.map(f).finite(),
        s.map(f).len() == s.len(),
    decreases s.len(),
{
    s.lemma_map_finite(f);
    if s.len() == 0 {
        assert(s =~= Set::empty());
        assert(s.map(f) =~= Set::<Set<LevelNo>>::empty());
    } else {
        let x = s.choose();
        let rest = s.remove(x);
        lemma_map_len(rest, f);
        assert(!rest.map(f).contains(f(x))) by {
            if rest.map(f).contains(f(x)) {
                let y = choose|y: Set<LevelNo>| rest.contains(y) && f(y) == f(x);
                assert(s.contains(y));
            }
        }
        assert forall|z: Set<LevelNo>| s.map(f).contains(z) == rest.map(f).insert(f(x)).contains(
            z,
        ) by {
            if s.map(f).contains(z) {
                let y = choose|y: Set<LevelNo>| s.contains(y) && f(y) == z;
                if y != x {
                    assert(rest.contains(y));
                }
            }
            if rest.map(f).contains(z) {
                let y = choose|y: Set<LevelNo>| rest.contains(y) && f(y) == z;
                assert(s.contains(y));
            }
        }
        assert(s.map(f) =~= rest.map(f).insert(f(x)));
    }
}

/// The number that satisfiability counting returns for the variables of the diagram is the number of
/// the assignments to them that satisfy the function.
pub proof fn law_sat_count(nodes: Seq<InnerNode>, levels: LevelNo, e: Edge)
    requires
        is_diagram(nodes, levels),
        valid(nodes, e),
    ensures
        depth(nodes, e) <= levels,
        models(nodes, e, 0, levels as int).finite(),
        sat_count(nodes, e, levels as nat) == models(nodes, e, 0, levels as int).len(),
{
    lemma_depth_level(nodes, levels, e);
    lemma_models_len(nodes, levels, e, 0);
}

/// Satisfying assignments can be counted for any number of variables that is at least the number of
/// nodes on the longest path to the terminal.
pub proof fn law_depth(nodes: Seq<InnerNode>, levels: LevelNo, e: Edge)
    requires
        is_diagram(nodes, levels),
        e.node <= nodes.len(),
    ensures
        e.node == 0 ==> depth(nodes, e) == 0,
        e.node != 0 ==> {
            let t = depth(nodes, nodes[e.node - 1].t);
            let el = depth(nodes, nodes[e.node - 1].e);
            depth(nodes, e) == 1 + if t > el {
                t
            } else {
                el
            }
        },
{
    if e.node != 0 {
        lemma_cofactors(nodes, levels, e);
    }
}

/// The number of satisfying assignments for more variables.
proof fn lemma_sat_count_more(
    nodes: Seq<InnerNode>,
    levels: LevelNo,
    e: Edge,
    vars: nat,
    more: nat,
)
    requires
        is_diagram(nodes, levels),
        valid(nodes, e),
        depth(nodes, e) <= vars,
    ensures
        sat_count(nodes, e, vars + more) == sat_count(nodes, e, vars) * pow2(more),
    decreases more,
{
    lemma2_to64();
    if more > 0 {
        let less = (more - 1) as nat;
        lemma_sat_count_more(nodes, levels, e, vars, less);
        lemma_sat_count_double(nodes, levels, e, vars + less);
        lemma_pow2_unfold(more);
        let n = sat_count(nodes, e, vars);
        let p = pow2(less);
        assert(2 * (n * p) == n * (2 * p)) by (nonlinear_arith);
        assert(vars + less + 1 == vars + more);
    } else {
        let n = sat_count(nodes, e, vars);
        assert(pow2(more) == 1);
        assert(n * pow2(more) == n) by (nonlinear_arith)
            requires
                pow2(more) == 1,
        ;
    }
}

/// The number that satisfiability counting returns, for any number of variables, is the same fraction
/// of all assignments to these as satisfy the function among the assignments to the variables of the
/// diagram.
pub proof fn law_sat_count_fraction(nodes: Seq<InnerNode>, levels: LevelNo, e: Edge, vars: nat)
    requires
        is_diagram(nodes, levels),
        valid(nodes, e),
        depth(nodes, e) <= vars,
    ensures
        sat_count(nodes, e, vars) * pow2(levels as nat) == Set::new(
            |env: Set<LevelNo>|
                (forall|l: LevelNo| #[trigger] env.contains(l) ==> l < levels) && eval(
                    nodes,
                    e,
                    env,
                ),
        ).len() * pow2(vars),
{
    law_sat_count(nodes, levels, e);
    let all = Set::new(
        |env: Set<LevelNo>|
            (forall|l: LevelNo| #[trigger] env.contains(l) ==> l < levels) && eval(nodes, e, env),
    );
    assert forall|env: Set<LevelNo>| all.contains(env) == models(
        nodes,
        e,
        0,
        levels as int,
    ).contains(env) by {
        if all.contains(env) {
            assert forall|l: LevelNo| #[trigger] env.contains(l) implies 0 <= l < levels by {}
        }
        if models(nodes, e, 0, levels as int).contains(env) {
            assert forall|l: LevelNo| #[trigger] env.contains(l) implies l < levels by {}
        }
    }
    assert(all =~= models(nodes, e, 0, levels as int));
    let n = sat_count(nodes, e, vars);
    let m = sat_count(nodes, e, levels as nat);
    assert(m == all.len());
    if vars <= levels {
        let k = (levels - vars) as nat;
        lemma_sat_count_more(nodes, levels, e, vars, k);
        lemma_pow2_adds(vars, k);
        let p = pow2(vars);
        let q = pow2(k);
        assert(vars + k == levels);
        assert(n * (p * q) == (n * q) * p) by (nonlinear_arith);
    } else {
        let k = (vars - levels) as nat;
        lemma_sat_count_more(nodes, levels, e, levels as nat, k);
        lemma_pow2_adds(levels as nat, k);
        let p = pow2(levels as nat);
        let q = pow2(k);
        assert(levels as nat + k == vars);
        assert((m * q) * p == m * (p * q)) by (nonlinear_arith);
    }
}

proof fn lemma_models_len(nodes: Seq<InnerNode>, levels: LevelNo, e: Edge, low: LevelNo)
    requires
        is_diagram(nodes, levels),
        valid(nodes, e),
        low <= levels,
        low <= level_of(nodes, e),
    ensures
        models(nodes, e, low as int, levels as int).finite(),
        sat_count(nodes, e, (levels - low) as nat) == models(
            nodes,
            e,
            low as int,
            levels as int,
        ).len(),
    decreases levels - low,
{
    let all = models(nodes, e, low as int, levels as int);
    if low == levels {
        if is_inner(e) {
            lemma_cofactors(nodes, levels, e);
        }
        let none = Set::<LevelNo>::empty();
        assert forall|env: Set<LevelNo>| all.contains(env) implies env == none by {
            assert forall|l: LevelNo| !env.contains(l) by {}
            assert(env =~= none);
        }
        lemma2_to64();
        if e.neg() {
            assert(all =~= Set::<Set<LevelNo>>::empty());
        } else {
            assert(all =~= Set::<Set<LevelNo>>::empty().insert(none));
        }
    } else if level_of(nodes, e) == low {
        lemma_cofactors(nodes, levels, e);
        let t = then_of(nodes, e);
        let el = else_of(nodes, e);
        let next = (low + 1) as LevelNo;
        lemma_models_len(nodes, levels, t, next);
        lemma_models_len(nodes, levels, el, next);
        lemma_models_split(nodes, levels, e, t, el, low);
    } else {
        let next = (low + 1) as LevelNo;
        lemma_models_len(nodes, levels, e, next);
        lemma_models_split(nodes, levels, e, e, e, low);
        lemma_depth_level(nodes, levels, e);
        lemma_sat_count_double(nodes, levels, e, (levels - next) as nat);
        assert((levels - low) as nat == (levels - next) as nat + 1);
    }
}

} // verus!
