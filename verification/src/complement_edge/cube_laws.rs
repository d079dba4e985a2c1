//! Laws of sets of variables and of cubes, by the functions that they stand for.

use super::canonicity::equivalent;
use super::edge::{BCDDOp, Edge, InnerNode, LevelNo};
use super::laws::{
    law_canonical, law_constants, law_exist, law_forall, law_unique, models_near, same_outside,
};
use super::operators::{cube_assign, is_cube, lemma_var_set_below, quantify, var_set};
use super::semantics::{
    assign, else_of, eval, is_diagram, is_inner, lemma_cofactors, lemma_eval_agree, node_of,
    node_ok, then_of, valid,
};
use vstd::prelude::*;

verus! {

/// If all variables are true, an edge is true exactly if it is not complemented.
proof fn lemma_all_true(nodes: Seq<InnerNode>, levels: LevelNo, e: Edge)
    requires
        is_diagram(nodes, levels),
        valid(nodes, e),
    ensures
        eval(nodes, e, Set::full()) == !e.neg(),
    decreases e.node,
{
    if is_inner(e) {
        assert(node_ok(nodes, levels, e.node - 1));
        lemma_all_true(nodes, levels, node_of(nodes, e).t);
    }
}

/// The values of the cofactors, from those of the function.
proof fn lemma_cofactor_values(nodes: Seq<InnerNode>, levels: LevelNo, e: Edge, env: Set<LevelNo>)
    requires
        is_diagram(nodes, levels),
        valid(nodes, e),
        is_inner(e),
    ensures
        eval(nodes, then_of(nodes, e), env) == eval(
            nodes,
            e,
            env.insert(node_of(nodes, e).level),
        ),
        eval(nodes, else_of(nodes, e), env) == eval(
            nodes,
            e,
            env.remove(node_of(nodes, e).level),
        ),
{
    lemma_cofactors(nodes, levels, e);
    let l = node_of(nodes, e).level;
    lemma_eval_agree(nodes, levels, then_of(nodes, e), env, env.insert(l));
    lemma_eval_agree(nodes, levels, else_of(nodes, e), env, env.remove(l));
}

/// A function depends on the top variable of its edge.
proof fn lemma_depends(nodes: Seq<InnerNode>, levels: LevelNo, e: Edge) -> (env: Set<LevelNo>)
    requires
        is_diagram(nodes, levels),
        valid(nodes, e),
        is_inner(e),
    ensures
        eval(nodes, e, env.insert(node_of(nodes, e).level)) != eval(
            nodes,
            e,
            env.remove(node_of(nodes, e).level),
        ),
{
    lemma_cofactors(nodes, levels, e);
    let t = then_of(nodes, e);
    let el = else_of(nodes, e);
    if equivalent(nodes, t, el) {
        law_canonical(nodes, levels, t, el);
    }
    let env = choose|env: Set<LevelNo>| #[trigger] eval(nodes, t, env) != eval(nodes, el, env);
    lemma_cofactor_values(nodes, levels, e, env);
    env
}

// ---------------------------------------------------------------------------------------------
// Sets of variables

/// An edge that stands for the conjunction of the variables of `s` lists exactly these variables,
/// from top to bottom.
pub proof fn law_conjunction(nodes: Seq<InnerNode>, levels: LevelNo, vars: Edge, s: Set<LevelNo>)
    requires
        is_diagram(nodes, levels),
        valid(nodes, vars),
        forall|env: Set<LevelNo>| #[trigger] eval(nodes, vars, env) <==> s.subset_of(env),
    ensures
        forall|l: LevelNo| #[trigger] var_set(nodes, vars).contains(l) <==> s.contains(l),
        forall|i: int, j: int|
            0 <= i < j < var_set(nodes, vars).len() ==> #[trigger] var_set(nodes, vars)[i]
                < #[trigger] var_set(nodes, vars)[j],
    decreases vars.node,
{
    let all = var_set(nodes, vars);
    assert(eval(nodes, vars, s));
    if !is_inner(vars) {
        let none = Set::<LevelNo>::empty();
        assert(eval(nodes, vars, none));
        assert(all.len() == 0);
        assert forall|l: LevelNo| #[trigger] all.contains(l) <==> s.contains(l) by {
            if s.contains(l) {
                assert(none.contains(l));
            }
        }
    } else {
        lemma_cofactors(nodes, levels, vars);
        let n = node_of(nodes, vars);
        let l = n.level;
        assert(s.contains(l)) by {
            if !s.contains(l) {
                let env = lemma_depends(nodes, levels, vars);
                assert(s.subset_of(env.insert(l)) == s.subset_of(env.remove(l)));
            }
        }
        assert(eval(nodes, vars, Set::full()));
        lemma_all_true(nodes, levels, vars);
        assert(then_of(nodes, vars) == n.t) by {
            assert(node_ok(nodes, levels, vars.node - 1));
        }
        let less = s.remove(l);
        assert forall|env: Set<LevelNo>| #[trigger] eval(nodes, n.t, env) <==> less.subset_of(
            env,
        ) by {
            lemma_cofactor_values(nodes, levels, vars, env);
            assert(s.subset_of(env.insert(l)) == less.subset_of(env));
        }
        law_conjunction(nodes, levels, n.t, less);
        lemma_var_set_below(nodes, levels, vars);
        lemma_var_set_below(nodes, levels, n.t);
        let rest = var_set(nodes, n.t);
        assert(all == seq![l] + rest);
        assert forall|m: LevelNo| #[trigger] all.contains(m) <==> s.contains(m) by {
            if all.contains(m) {
                let k = choose|k: int| 0 <= k < all.len() && all[k] == m;
                if k > 0 {
                    assert(rest[k - 1] == m);
                    assert(rest.contains(m));
                }
            }
            if s.contains(m) {
                if m == l {
                    assert(all[0] == m);
                } else {
                    assert(less.contains(m));
                    assert(rest.contains(m));
                    let k = choose|k: int| 0 <= k < rest.len() && rest[k] == m;
                    assert(all[k + 1] == m);
                }
            }
        }
        assert forall|i: int, j: int| 0 <= i < j < all.len() implies #[trigger] all[i]
            < #[trigger] all[j] by {
            assert(all[j] == rest[j - 1]);
            if i > 0 {
                assert(all[i] == rest[i - 1]);
            }
        }
    }
}

/// Any edge lists the variables at the levels of the nodes along the then-edges.
pub proof fn law_then_path(nodes: Seq<InnerNode>, levels: LevelNo, vars: Edge)
    requires
        is_diagram(nodes, levels),
        vars.node <= nodes.len(),
    ensures
        vars.node == 0 ==> var_set(nodes, vars) == Seq::<LevelNo>::empty(),
        vars.node != 0 ==> var_set(nodes, vars) == seq![nodes[vars.node - 1].level] + var_set(
            nodes,
            nodes[vars.node - 1].t,
        ),
{
    if vars.node != 0 {
        assert(node_ok(nodes, levels, vars.node - 1));
    }
}

/// Universal quantification over the conjunction of the variables of `s` holds exactly if the
/// function is true for all values of these variables.
pub proof fn law_forall_conjunction(
    nodes: Seq<InnerNode>,
    levels: LevelNo,
    f: Edge,
    vars: Edge,
    s: Set<LevelNo>,
    env: Set<LevelNo>,
)
    requires
        is_diagram(nodes, levels),
        valid(nodes, vars),
        forall|x: Set<LevelNo>| #[trigger] eval(nodes, vars, x) <==> s.subset_of(x),
    ensures
        quantify(BCDDOp::Forall, nodes, f, var_set(nodes, vars), env) <==> forall|
            other: Set<LevelNo>,
        |
            (forall|l: LevelNo| !s.contains(l) ==> #[trigger] other.contains(l) == env.contains(l))
                ==> #[trigger] eval(nodes, f, other),
{
    let vs = var_set(nodes, vars);
    law_conjunction(nodes, levels, vars, s);
    law_forall(nodes, f, vs, env);
    lemma_same_outside(vs, s, env);
    if quantify(BCDDOp::Forall, nodes, f, vs, env) {
        assert forall|other: Set<LevelNo>|
            (forall|l: LevelNo|
                !s.contains(l) ==> #[trigger] other.contains(l) == env.contains(l)) implies #[trigger]
        eval(nodes, f, other) by {
            assert(same_outside(vs, env, other));
        }
    }
    if forall|other: Set<LevelNo>|
        (forall|l: LevelNo| !s.contains(l) ==> #[trigger] other.contains(l) == env.contains(l))
            ==> #[trigger] eval(nodes, f, other) {
        assert forall|other: Set<LevelNo>| #[trigger] same_outside(vs, env, other) implies eval(
            nodes,
            f,
            other,
        ) by {}
    }
}

/// Existential quantification over the conjunction of the variables of `s` holds exactly if the
/// function is true for some values of these variables.
pub proof fn law_exist_conjunction(
    nodes: Seq<InnerNode>,
    levels: LevelNo,
    f: Edge,
    vars: Edge,
    s: Set<LevelNo>,
    env: Set<LevelNo>,
)
    requires
        is_diagram(nodes, levels),
        valid(nodes, vars),
        forall|x: Set<LevelNo>| #[trigger] eval(nodes, vars, x) <==> s.subset_of(x),
    ensures
        quantify(BCDDOp::Exist, nodes, f, var_set(nodes, vars), env) <==> exists|
            other: Set<LevelNo>,
        |
            (forall|l: LevelNo| !s.contains(l) ==> #[trigger] other.contains(l) == env.contains(l))
                && #[trigger] eval(nodes, f, other),
{
    let vs = var_set(nodes, vars);
    law_conjunction(nodes, levels, vars, s);
    law_exist(nodes, f, vs, env);
    lemma_same_outside(vs, s, env);
    if quantify(BCDDOp::Exist, nodes, f, vs, env) {
        let other = choose|other: Set<LevelNo>| #[trigger]
            same_outside(vs, env, other) && eval(nodes, f, other);
        assert(eval(nodes, f, other));
    }
    if exists|other: Set<LevelNo>|
        (forall|l: LevelNo| !s.contains(l) ==> #[trigger] other.contains(l) == env.contains(l))
            && #[trigger] eval(nodes, f, other) {
        let other = choose|other: Set<LevelNo>|
            (forall|l: LevelNo| !s.contains(l) ==> #[trigger] other.contains(l) == env.contains(l))
                && #[trigger] eval(nodes, f, other);
        assert(same_outside(vs, env, other));
    }
}

/// Unique quantification over the conjunction of the variables of `s` holds exactly if the function
/// is true for an odd number of values of these variables.
pub proof fn law_unique_conjunction(
    nodes: Seq<InnerNode>,
    levels: LevelNo,
    f: Edge,
    vars: Edge,
    s: Set<LevelNo>,
    env: Set<LevelNo>,
)
    requires
        is_diagram(nodes, levels),
        valid(nodes, vars),
        forall|x: Set<LevelNo>| #[trigger] eval(nodes, vars, x) <==> s.subset_of(x),
    ensures
        Set::new(
            |other: Set<LevelNo>|
                (forall|l: LevelNo|
                    !s.contains(l) ==> #[trigger] other.contains(l) == env.contains(l)) && eval(
                    nodes,
                    f,
                    other,
                ),
        ).finite(),
        quantify(BCDDOp::Unique, nodes, f, var_set(nodes, vars), env) <==> Set::new(
            |other: Set<LevelNo>|
                (forall|l: LevelNo|
                    !s.contains(l) ==> #[trigger] other.contains(l) == env.contains(l)) && eval(
                    nodes,
                    f,
                    other,
                ),
        ).len() % 2 == 1,
{
    let vs = var_set(nodes, vars);
    law_conjunction(nodes, levels, vars, s);
    assert(vs.no_duplicates()) by {
        assert forall|i: int, j: int| 0 <= i < vs.len() && 0 <= j < vs.len() && i != j implies vs[i]
            != vs[j] by {
            if i < j {
                assert(vs[i] < vs[j]);
            } else {
                assert(vs[j] < vs[i]);
            }
        }
    }
    law_unique(nodes, f, vs, env);
    lemma_same_outside(vs, s, env);
    let odd = Set::new(
        |other: Set<LevelNo>|
            (forall|l: LevelNo| !s.contains(l) ==> #[trigger] other.contains(l) == env.contains(l))
                && eval(nodes, f, other),
    );
    assert forall|other: Set<LevelNo>| models_near(nodes, f, vs, env).contains(other)
        == odd.contains(other) by {
        assert(same_outside(vs, env, other) || !same_outside(vs, env, other));
    }
    assert(models_near(nodes, f, vs, env) =~= odd);
}

/// Both ways to say that assignments agree on all other variables.
proof fn lemma_same_outside(vs: Seq<LevelNo>, s: Set<LevelNo>, env: Set<LevelNo>)
    requires
        forall|l: LevelNo| #[trigger] vs.contains(l) <==> s.contains(l),
    ensures
        forall|other: Set<LevelNo>| #[trigger]
            same_outside(vs, env, other) <==> forall|l: LevelNo|
                !s.contains(l) ==> #[trigger] other.contains(l) == env.contains(l),
{
    assert forall|other: Set<LevelNo>| #[trigger] same_outside(vs, env, other) <==> forall|
        l: LevelNo,
    | !s.contains(l) ==> #[trigger] other.contains(l) == env.contains(l) by {
        if same_outside(vs, env, other) {
            assert forall|l: LevelNo| !s.contains(l) implies #[trigger] other.contains(l)
                == env.contains(l) by {
                assert(!vs.contains(l));
                assert(env.contains(l) == other.contains(l));
            }
        }
        if forall|l: LevelNo| !s.contains(l) ==> #[trigger] other.contains(l) == env.contains(l) {
            assert forall|l: LevelNo| !vs.contains(l) implies #[trigger] env.contains(l)
                == other.contains(l) by {
                assert(!s.contains(l));
            }
        }
    }
}

// ---------------------------------------------------------------------------------------------
// Cubes

/// An edge that stands for the conjunction of the variables of `yes` and the negated variables of
/// `no` is a cube. Restricting a function to it makes the variables of `yes` true and those of `no`
/// false, and leaves all others as they are.
pub proof fn law_literals(
    nodes: Seq<InnerNode>,
    levels: LevelNo,
    c: Edge,
    yes: Set<LevelNo>,
    no: Set<LevelNo>,
    env: Set<LevelNo>,
)
    requires
        is_diagram(nodes, levels),
        valid(nodes, c),
        yes.disjoint(no),
        forall|x: Set<LevelNo>| #[trigger]
            eval(nodes, c, x) <==> yes.subset_of(x) && no.disjoint(x),
    ensures
        is_cube(nodes, c),
        cube_assign(nodes, c, env) == env.difference(no).union(yes),
    decreases c.node,
{
    let goal = env.difference(no).union(yes);
    assert(no.disjoint(yes));
    assert(eval(nodes, c, yes));
    if !is_inner(c) {
        let none = Set::<LevelNo>::empty();
        let full = Set::<LevelNo>::full();
        assert(eval(nodes, c, none));
        assert(eval(nodes, c, full));
        assert forall|l: LevelNo| !yes.contains(l) && !no.contains(l) by {
            assert(!none.contains(l));
            assert(full.contains(l));
        }
        assert(goal =~= env);
    } else {
        lemma_cofactors(nodes, levels, c);
        let l = node_of(nodes, c).level;
        let t = then_of(nodes, c);
        let e = else_of(nodes, c);
        if yes.contains(l) {
            let less = yes.remove(l);
            assert forall|x: Set<LevelNo>| !#[trigger] eval(nodes, e, x) by {
                lemma_cofactor_values(nodes, levels, c, x);
                assert(!yes.subset_of(x.remove(l)));
            }
            law_constants(nodes, levels, e);
            assert forall|x: Set<LevelNo>| #[trigger]
                eval(nodes, t, x) <==> less.subset_of(x) && no.disjoint(x) by {
                lemma_cofactor_values(nodes, levels, c, x);
                assert(yes.subset_of(x.insert(l)) == less.subset_of(x));
                assert(!no.contains(l));
                assert(no.disjoint(x.insert(l)) == no.disjoint(x)) by {
                    if no.disjoint(x) {
                        assert forall|m: LevelNo| no.contains(m) implies !x.insert(l).contains(m) by {}
                    }
                    if no.disjoint(x.insert(l)) {
                        assert forall|m: LevelNo| no.contains(m) implies !x.contains(m) by {
                            assert(!x.insert(l).contains(m));
                        }
                    }
                }
            }
            law_literals(nodes, levels, t, less, no, env);
            assert(cube_assign(nodes, c, env) == assign(cube_assign(nodes, t, env), l, true));
            assert(cube_assign(nodes, c, env) =~= goal);
        } else if no.contains(l) {
            let less = no.remove(l);
            assert forall|x: Set<LevelNo>| !#[trigger] eval(nodes, t, x) by {
                lemma_cofactor_values(nodes, levels, c, x);
                assert(!no.disjoint(x.insert(l))) by {
                    assert(x.insert(l).contains(l));
                }
            }
            law_constants(nodes, levels, t);
            assert forall|x: Set<LevelNo>| #[trigger]
                eval(nodes, e, x) <==> yes.subset_of(x) && less.disjoint(x) by {
                lemma_cofactor_values(nodes, levels, c, x);
                assert(yes.subset_of(x.remove(l)) == yes.subset_of(x));
                assert(no.disjoint(x.remove(l)) == less.disjoint(x)) by {
                    if less.disjoint(x) {
                        assert forall|m: LevelNo| no.contains(m) implies !x.remove(l).contains(m) by {
                            if m != l {
                                assert(less.contains(m));
                            }
                        }
                    }
                    if no.disjoint(x.remove(l)) {
                        assert forall|m: LevelNo| less.contains(m) implies !x.contains(m) by {
                            assert(!x.remove(l).contains(m));
                        }
                    }
                }
            }
            law_literals(nodes, levels, e, yes, less, env);
            assert(cube_assign(nodes, c, env) == assign(cube_assign(nodes, e, env), l, false));
            assert(cube_assign(nodes, c, env) =~= goal);
        } else {
            let x = lemma_depends(nodes, levels, c);
            assert(yes.subset_of(x.insert(l)) == yes.subset_of(x.remove(l)));
            assert(no.disjoint(x.insert(l)) == no.disjoint(x.remove(l))) by {
                if no.disjoint(x.remove(l)) {
                    assert forall|m: LevelNo| no.contains(m) implies !x.insert(l).contains(m) by {
                        assert(!x.remove(l).contains(m));
                    }
                }
                if no.disjoint(x.insert(l)) {
                    assert forall|m: LevelNo| no.contains(m) implies !x.remove(l).contains(m) by {
                        assert(!x.insert(l).contains(m));
                    }
                }
            }
        }
    }
}

/// Restricting to a constant changes nothing.
pub proof fn law_restrict_constant(nodes: Seq<InnerNode>, c: Edge, env: Set<LevelNo>)
    requires
        c.node == 0,
    ensures
        is_cube(nodes, c),
        cube_assign(nodes, c, env) == env,
{
}

} // verus!
