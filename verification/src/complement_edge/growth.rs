//! Which nodes operations add.

use super::canonicity::{
    adds_decision, agree_from, bin_fn, cofactors, denotes, ite_fn, lemma_bin_splits,
    lemma_ite_splits, lemma_restrict_splits, node_for, restrict_fn, splits,
};
use super::edge::{BCDDOp, Edge, InnerNode, LevelNo};
use super::operators::{cube_assign, is_bin, is_ite, is_restricted, lemma_cube_extends};
use super::semantics::{
    bin_value, else_of, eval, extends, is_diagram, is_inner, lemma_cofactors, lemma_eval_flipped,
    lemma_extends, level_of, node_of, then_of, valid,
};
use vstd::prelude::*;

verus! {

/// `env`, but with the values that `fixed` gives to the variables above the level `k`.
pub open spec fn with_top(fixed: Set<LevelNo>, k: int, env: Set<LevelNo>) -> Set<LevelNo> {
    Set::new(
        |l: LevelNo|
            if l < k {
                fixed.contains(l)
            } else {
                env.contains(l)
            },
    )
}

/// The edge `e` stands for what `value` becomes once the variables above the level `k` have the
/// values that `fixed` gives them, negated if `neg`.
pub open spec fn stands_for(
    nodes: Seq<InnerNode>,
    e: Edge,
    value: spec_fn(Set<LevelNo>) -> bool,
    fixed: Set<LevelNo>,
    k: int,
    neg: bool,
) -> bool {
    forall|env: Set<LevelNo>| #[trigger]
        eval(nodes, e, env) == (value(with_top(fixed, k, env)) != neg)
}

/// Every edge to a node of `b` that is not in `a` stands for what `value` becomes once the variables
/// above some level have values, or for the negation of that.
#[verifier::opaque]
pub open spec fn adds_parts(
    a: Seq<InnerNode>,
    b: Seq<InnerNode>,
    value: spec_fn(Set<LevelNo>) -> bool,
) -> bool {
    forall|e: Edge| #[trigger]
        valid(b, e) && !valid(a, e) ==> exists|fixed: Set<LevelNo>, k: int, neg: bool| #[trigger]
            stands_for(b, e, value, fixed, k, neg)
}

/// No node is added.
pub proof fn lemma_adds_none(a: Seq<InnerNode>)
    ensures
        forall|value: spec_fn(Set<LevelNo>) -> bool| #[trigger] adds_parts(a, a, value),
{
    reveal(adds_parts);
}

/// Nodes are added one after the other.
pub proof fn lemma_adds_both(
    a: Seq<InnerNode>,
    b: Seq<InnerNode>,
    c: Seq<InnerNode>,
    levels: LevelNo,
    value: spec_fn(Set<LevelNo>) -> bool,
)
    requires
        is_diagram(b, levels),
        extends(b, c),
        adds_parts(a, b, value),
        adds_parts(b, c, value),
    ensures
        adds_parts(a, c, value),
{
    reveal(adds_parts);
    lemma_extends(b, c, levels);
    assert forall|e: Edge| #[trigger] valid(c, e) && !valid(a, e) implies exists|
        fixed: Set<LevelNo>,
        k: int,
        neg: bool,
    | #[trigger] stands_for(c, e, value, fixed, k, neg) by {
        if valid(b, e) {
            let (fixed, k, neg) = choose|fixed: Set<LevelNo>, k: int, neg: bool| #[trigger]
                stands_for(b, e, value, fixed, k, neg);
            assert forall|env: Set<LevelNo>| #[trigger]
                eval(c, e, env) == (value(with_top(fixed, k, env)) != neg) by {
                assert(eval(b, e, env) == eval(c, e, env));
            }
            assert(stands_for(c, e, value, fixed, k, neg));
        }
    }
}

/// What is added depends on the values of the function only, and not on whether it is negated.
pub proof fn lemma_adds_same(
    a: Seq<InnerNode>,
    b: Seq<InnerNode>,
    value: spec_fn(Set<LevelNo>) -> bool,
    flip: bool,
)
    requires
        adds_parts(a, b, value),
    ensures
        forall|other: spec_fn(Set<LevelNo>) -> bool|
            (forall|env: Set<LevelNo>| #[trigger] other(env) == (value(env) != flip))
                ==> #[trigger] adds_parts(a, b, other),
{
    reveal(adds_parts);
    assert forall|other: spec_fn(Set<LevelNo>) -> bool|
        (forall|env: Set<LevelNo>| #[trigger] other(env) == (value(env) != flip)) implies #[trigger] adds_parts(
        a,
        b,
        other,
    ) by {
        assert forall|e: Edge| #[trigger] valid(b, e) && !valid(a, e) implies exists|
            fixed: Set<LevelNo>,
            k: int,
            neg: bool,
        | #[trigger] stands_for(b, e, other, fixed, k, neg) by {
            let (fixed, k, neg) = choose|fixed: Set<LevelNo>, k: int, neg: bool| #[trigger]
                stands_for(b, e, value, fixed, k, neg);
            assert forall|env: Set<LevelNo>| #[trigger]
                eval(b, e, env) == (other(with_top(fixed, k, env)) != (neg != flip)) by {
                let x = with_top(fixed, k, env);
                assert(other(x) == (value(x) != flip));
            }
            assert(stands_for(b, e, other, fixed, k, neg != flip));
        }
    }
}

/// What is added for a function is what is added for its negation.
pub proof fn lemma_adds_negated(a: Seq<InnerNode>, b: Seq<InnerNode>)
    ensures
        forall|value: spec_fn(Set<LevelNo>) -> bool, other: spec_fn(Set<LevelNo>) -> bool|
            #[trigger] adds_parts(a, b, value) && (forall|env: Set<LevelNo>| #[trigger]
                other(env) == !value(env)) ==> #[trigger] adds_parts(a, b, other),
{
    assert forall|value: spec_fn(Set<LevelNo>) -> bool, other: spec_fn(Set<LevelNo>) -> bool|
        #[trigger] adds_parts(a, b, value) && (forall|env: Set<LevelNo>| #[trigger]
            other(env) == !value(env)) implies #[trigger] adds_parts(a, b, other) by {
        lemma_adds_same(a, b, value, true);
        assert forall|env: Set<LevelNo>| #[trigger] other(env) == (value(env) != true) by {}
    }
}

/// A part of a cofactor is a part of the function.
proof fn lemma_adds_split(
    a: Seq<InnerNode>,
    b: Seq<InnerNode>,
    level: LevelNo,
    value: spec_fn(Set<LevelNo>) -> bool,
    vt: spec_fn(Set<LevelNo>) -> bool,
    ve: spec_fn(Set<LevelNo>) -> bool,
)
    requires
        splits(value, level, vt, ve),
    ensures
        adds_parts(a, b, vt) ==> adds_parts(a, b, value),
        adds_parts(a, b, ve) ==> adds_parts(a, b, value),
{
    reveal(adds_parts);
    if adds_parts(a, b, vt) {
        assert forall|e: Edge| #[trigger] valid(b, e) && !valid(a, e) implies exists|
            fixed: Set<LevelNo>,
            k: int,
            neg: bool,
        | #[trigger] stands_for(b, e, value, fixed, k, neg) by {
            let (fixed, k, neg) = choose|fixed: Set<LevelNo>, k: int, neg: bool| #[trigger]
                stands_for(b, e, vt, fixed, k, neg);
            let more = fixed.insert(level);
            let next: int = if k > level {
                k
            } else {
                level + 1
            };
            assert forall|env: Set<LevelNo>| #[trigger]
                eval(b, e, env) == (value(with_top(more, next, env)) != neg) by {
                let x = with_top(fixed, k, env);
                assert(vt(x) == value(x.insert(level)));
                assert(agree_from(level, x.insert(level), with_top(more, next, env)));
            }
            assert(stands_for(b, e, value, more, next, neg));
        }
    }
    if adds_parts(a, b, ve) {
        assert forall|e: Edge| #[trigger] valid(b, e) && !valid(a, e) implies exists|
            fixed: Set<LevelNo>,
            k: int,
            neg: bool,
        | #[trigger] stands_for(b, e, value, fixed, k, neg) by {
            let (fixed, k, neg) = choose|fixed: Set<LevelNo>, k: int, neg: bool| #[trigger]
                stands_for(b, e, ve, fixed, k, neg);
            let less = fixed.remove(level);
            let next: int = if k > level {
                k
            } else {
                level + 1
            };
            assert forall|env: Set<LevelNo>| #[trigger]
                eval(b, e, env) == (value(with_top(less, next, env)) != neg) by {
                let x = with_top(fixed, k, env);
                assert(ve(x) == value(x.remove(level)));
                assert(agree_from(level, x.remove(level), with_top(less, next, env)));
            }
            assert(stands_for(b, e, value, less, next, neg));
        }
    }
}

/// The node for the decision between the cofactors of a function stands for the function.
proof fn lemma_adds_decision(
    a: Seq<InnerNode>,
    b: Seq<InnerNode>,
    levels: LevelNo,
    level: LevelNo,
    t: Edge,
    e: Edge,
    value: spec_fn(Set<LevelNo>) -> bool,
)
    requires
        is_diagram(a, levels),
        is_diagram(b, levels),
        extends(a, b),
        valid(a, t),
        valid(a, e),
        adds_decision(a, b, level, t, e),
        forall|env: Set<LevelNo>| #[trigger]
            value(env) == if env.contains(level) {
                eval(a, t, env)
            } else {
                eval(a, e, env)
            },
    ensures
        adds_parts(a, b, value),
{
    reveal(adds_parts);
    reveal(adds_decision);
    lemma_extends(a, b, levels);
    assert forall|x: Edge| #[trigger] valid(b, x) && !valid(a, x) implies exists|
        fixed: Set<LevelNo>,
        k: int,
        neg: bool,
    | #[trigger] stands_for(b, x, value, fixed, k, neg) by {
        assert(is_inner(x));
        assert(node_of(b, x) == node_for(level, t, e));
        lemma_cofactors(b, levels, x);
        let neg = t.neg() != x.neg();
        let none = Set::<LevelNo>::empty();
        assert forall|env: Set<LevelNo>| #[trigger]
            eval(b, x, env) == (value(with_top(none, 0, env)) != neg) by {
            assert(with_top(none, 0, env) =~= env);
            lemma_eval_flipped(b, t, neg, env);
            lemma_eval_flipped(b, e, neg, env);
            assert(then_of(b, x) == t.flipped(neg));
            assert(else_of(b, x) == e.flipped(neg));
            assert(eval(b, t, env) == eval(a, t, env));
            assert(eval(b, e, env) == eval(a, e, env));
        }
        assert(stands_for(b, x, value, none, 0, neg));
    }
}

/// What is added for both cofactors of a function, and for the decision between them.
proof fn lemma_adds_steps(
    n0: Seq<InnerNode>,
    n1: Seq<InnerNode>,
    n2: Seq<InnerNode>,
    n3: Seq<InnerNode>,
    levels: LevelNo,
    level: LevelNo,
    value: spec_fn(Set<LevelNo>) -> bool,
    vt: spec_fn(Set<LevelNo>) -> bool,
    ve: spec_fn(Set<LevelNo>) -> bool,
    t: Edge,
    e: Edge,
)
    requires
        is_diagram(n1, levels),
        is_diagram(n2, levels),
        is_diagram(n3, levels),
        extends(n1, n2),
        extends(n2, n3),
        splits(value, level, vt, ve),
        adds_parts(n0, n1, vt),
        adds_parts(n1, n2, ve),
        n2 == n3 || (adds_decision(n2, n3, level, t, e) && denotes(n2, t, vt) && denotes(
            n2,
            e,
            ve,
        )),
    ensures
        adds_parts(n0, n3, value),
{
    lemma_adds_split(n0, n1, level, value, vt, ve);
    lemma_adds_split(n1, n2, level, value, vt, ve);
    lemma_adds_both(n0, n1, n2, levels, value);
    if n2 != n3 {
        assert forall|env: Set<LevelNo>| #[trigger] value(env) == if env.contains(level) {
            eval(n2, t, env)
        } else {
            eval(n2, e, env)
        } by {
            if env.contains(level) {
                assert(eval(n2, t, env) == vt(env));
                assert(env.insert(level) =~= env);
            } else {
                assert(eval(n2, e, env) == ve(env));
                assert(env.remove(level) =~= env);
            }
        }
        lemma_adds_decision(n2, n3, levels, level, t, e, value);
        lemma_adds_both(n0, n2, n3, levels, value);
    }
}

/// What a binary operator adds.
pub proof fn lemma_adds_bin(
    n0: Seq<InnerNode>,
    n1: Seq<InnerNode>,
    n2: Seq<InnerNode>,
    n3: Seq<InnerNode>,
    levels: LevelNo,
    op: BCDDOp,
    level: LevelNo,
    f: Edge,
    ft: Edge,
    fe: Edge,
    g: Edge,
    gt: Edge,
    ge: Edge,
    t: Edge,
    e: Edge,
)
    requires
        is_diagram(n0, levels),
        is_diagram(n1, levels),
        is_diagram(n2, levels),
        is_diagram(n3, levels),
        extends(n0, n1),
        extends(n1, n2),
        extends(n2, n3),
        op == BCDDOp::And || op == BCDDOp::Xor,
        cofactors(n0, level, f, ft, fe),
        cofactors(n0, level, g, gt, ge),
        adds_parts(n0, n1, bin_fn(n0, op, ft, gt)),
        n1 == n2 || adds_parts(n1, n2, bin_fn(n1, op, fe, ge)),
        n2 == n3 || (adds_decision(n2, n3, level, t, e) && is_bin(n2, op, ft, gt, t) && is_bin(
            n2,
            op,
            fe,
            ge,
            e,
        )),
    ensures
        adds_parts(n0, n3, bin_fn(n0, op, f, g)),
        adds_parts(n0, n3, bin_fn(n0, op, g, f)),
{
    let value = bin_fn(n0, op, f, g);
    let vt = bin_fn(n0, op, ft, gt);
    let ve = bin_fn(n0, op, fe, ge);
    lemma_bin_splits(n0, levels, op, level, f, ft, fe, g, gt, ge);
    lemma_extends(n0, n1, levels);
    lemma_extends(n1, n2, levels);
    reveal(cofactors);
    lemma_adds_none(n1);
    if n1 != n2 {
        lemma_adds_same(n1, n2, bin_fn(n1, op, fe, ge), false);
        assert forall|env: Set<LevelNo>| #[trigger] ve(env) == (bin_fn(n1, op, fe, ge)(env)
            != false) by {
            assert(eval(n1, fe, env) == eval(n0, fe, env));
            assert(eval(n1, ge, env) == eval(n0, ge, env));
        }
        assert(adds_parts(n1, n2, ve));
    }
    if n2 != n3 {
        assert forall|env: Set<LevelNo>| #[trigger] eval(n2, t, env) == vt(env) by {
            assert(eval(n2, ft, env) == eval(n0, ft, env));
            assert(eval(n2, gt, env) == eval(n0, gt, env));
        }
        assert forall|env: Set<LevelNo>| #[trigger] eval(n2, e, env) == ve(env) by {
            assert(eval(n2, fe, env) == eval(n0, fe, env));
            assert(eval(n2, ge, env) == eval(n0, ge, env));
        }
        assert(denotes(n2, t, vt));
        assert(denotes(n2, e, ve));
    }
    lemma_adds_steps(n0, n1, n2, n3, levels, level, value, vt, ve, t, e);
    lemma_adds_same(n0, n3, value, false);
    let other = bin_fn(n0, op, g, f);
    assert forall|env: Set<LevelNo>| #[trigger] other(env) == (value(env) != false) by {}
}

/// What the if-then-else operator adds.
pub proof fn lemma_adds_ite(
    n0: Seq<InnerNode>,
    n1: Seq<InnerNode>,
    n2: Seq<InnerNode>,
    n3: Seq<InnerNode>,
    levels: LevelNo,
    level: LevelNo,
    f: Edge,
    ft: Edge,
    fe: Edge,
    g: Edge,
    gt: Edge,
    ge: Edge,
    h: Edge,
    ht: Edge,
    he: Edge,
    t: Edge,
    e: Edge,
)
    requires
        is_diagram(n0, levels),
        is_diagram(n1, levels),
        is_diagram(n2, levels),
        is_diagram(n3, levels),
        extends(n0, n1),
        extends(n1, n2),
        extends(n2, n3),
        cofactors(n0, level, f, ft, fe),
        cofactors(n0, level, g, gt, ge),
        cofactors(n0, level, h, ht, he),
        adds_parts(n0, n1, ite_fn(n0, ft, gt, ht)),
        n1 == n2 || adds_parts(n1, n2, ite_fn(n1, fe, ge, he)),
        n2 == n3 || (adds_decision(n2, n3, level, t, e) && is_ite(n2, ft, gt, ht, t) && is_ite(
            n2,
            fe,
            ge,
            he,
            e,
        )),
    ensures
        adds_parts(n0, n3, ite_fn(n0, f, g, h)),
{
    let value = ite_fn(n0, f, g, h);
    let vt = ite_fn(n0, ft, gt, ht);
    let ve = ite_fn(n0, fe, ge, he);
    lemma_ite_splits(n0, levels, level, f, ft, fe, g, gt, ge, h, ht, he);
    lemma_extends(n0, n1, levels);
    lemma_extends(n1, n2, levels);
    reveal(cofactors);
    lemma_adds_none(n1);
    if n1 != n2 {
        lemma_adds_same(n1, n2, ite_fn(n1, fe, ge, he), false);
        assert forall|env: Set<LevelNo>| #[trigger] ve(env) == (ite_fn(n1, fe, ge, he)(env)
            != false) by {
            assert(eval(n1, fe, env) == eval(n0, fe, env));
            assert(eval(n1, ge, env) == eval(n0, ge, env));
            assert(eval(n1, he, env) == eval(n0, he, env));
        }
        assert(adds_parts(n1, n2, ve));
    }
    if n2 != n3 {
        assert forall|env: Set<LevelNo>| #[trigger] eval(n2, t, env) == vt(env) by {
            assert(eval(n2, ft, env) == eval(n0, ft, env));
            assert(eval(n2, gt, env) == eval(n0, gt, env));
            assert(eval(n2, ht, env) == eval(n0, ht, env));
        }
        assert forall|env: Set<LevelNo>| #[trigger] eval(n2, e, env) == ve(env) by {
            assert(eval(n2, fe, env) == eval(n0, fe, env));
            assert(eval(n2, ge, env) == eval(n0, ge, env));
            assert(eval(n2, he, env) == eval(n0, he, env));
        }
        assert(denotes(n2, t, vt));
        assert(denotes(n2, e, ve));
    }
    lemma_adds_steps(n0, n1, n2, n3, levels, level, value, vt, ve, t, e);
}

/// What the if-then-else operator adds if it amounts to a binary operator.
pub proof fn lemma_adds_ite_as_bin(
    a: Seq<InnerNode>,
    b: Seq<InnerNode>,
    f: Edge,
    g: Edge,
    h: Edge,
    op: BCDDOp,
    x: Edge,
    y: Edge,
    negated: bool,
)
    requires
        adds_parts(a, b, bin_fn(a, op, x, y)),
        forall|env: Set<LevelNo>|
            (if #[trigger] eval(a, f, env) {
                eval(a, g, env)
            } else {
                eval(a, h, env)
            }) == (bin_value(op, eval(a, x, env), eval(a, y, env)) != negated),
    ensures
        adds_parts(a, b, ite_fn(a, f, g, h)),
{
    let value = bin_fn(a, op, x, y);
    let other = ite_fn(a, f, g, h);
    assert forall|env: Set<LevelNo>| #[trigger] other(env) == (value(env) != negated) by {
        let c = eval(a, f, env);
    }
    lemma_adds_same(a, b, value, negated);
}

/// What restriction adds, where the restriction of `f` by `vars` is that of `g` by `rest`, negated if
/// `g_neg`.
pub proof fn lemma_adds_restrict(
    n0: Seq<InnerNode>,
    n1: Seq<InnerNode>,
    n2: Seq<InnerNode>,
    n3: Seq<InnerNode>,
    levels: LevelNo,
    f: Edge,
    vars: Edge,
    g: Edge,
    g_neg: bool,
    rest: Edge,
    t: Edge,
    e: Edge,
)
    requires
        is_diagram(n0, levels),
        is_diagram(n1, levels),
        is_diagram(n2, levels),
        is_diagram(n3, levels),
        extends(n0, n1),
        extends(n1, n2),
        extends(n2, n3),
        valid(n0, g),
        valid(n0, rest),
        is_inner(g),
        level_of(n0, g) < level_of(n0, rest),
        forall|env: Set<LevelNo>|
            eval(n0, g.flipped(g_neg), #[trigger] cube_assign(n0, rest, env)) == eval(
                n0,
                f,
                cube_assign(n0, vars, env),
            ),
        adds_parts(n0, n1, restrict_fn(n0, then_of(n0, g), rest)),
        n1 == n2 || adds_parts(n1, n2, restrict_fn(n1, else_of(n0, g), rest)),
        n2 == n3 || (adds_decision(n2, n3, node_of(n0, g).level, t, e) && is_restricted(
            n1,
            then_of(n0, g),
            rest,
            t,
        ) && is_restricted(n2, else_of(n0, g), rest, e)),
    ensures
        adds_parts(n0, n3, restrict_fn(n0, f, vars)),
{
    let level = node_of(n0, g).level;
    let gt = then_of(n0, g);
    let ge = else_of(n0, g);
    let value = restrict_fn(n0, g, rest);
    let vt = restrict_fn(n0, gt, rest);
    let ve = restrict_fn(n0, ge, rest);
    lemma_restrict_splits(n0, levels, g, rest);
    lemma_cofactors(n0, levels, g);
    lemma_extends(n0, n1, levels);
    lemma_extends(n1, n2, levels);
    lemma_cube_extends(n0, n1, levels, rest);
    lemma_cube_extends(n1, n2, levels, rest);
    lemma_adds_none(n1);
    if n1 != n2 {
        lemma_adds_same(n1, n2, restrict_fn(n1, ge, rest), false);
        assert forall|env: Set<LevelNo>| #[trigger] ve(env) == (restrict_fn(n1, ge, rest)(env)
            != false) by {
            let x = cube_assign(n0, rest, env);
            assert(cube_assign(n1, rest, env) == x);
            assert(eval(n1, ge, x) == eval(n0, ge, x));
        }
        assert(adds_parts(n1, n2, ve));
    }
    if n2 != n3 {
        assert forall|env: Set<LevelNo>| #[trigger] eval(n2, t, env) == vt(env) by {
            let x = cube_assign(n0, rest, env);
            assert(cube_assign(n1, rest, env) == x);
            assert(eval(n1, gt, x) == eval(n0, gt, x));
            assert(eval(n1, t, env) == eval(n1, gt, cube_assign(n1, rest, env)));
            assert(eval(n2, t, env) == eval(n1, t, env));
        }
        assert forall|env: Set<LevelNo>| #[trigger] eval(n2, e, env) == ve(env) by {
            let x = cube_assign(n0, rest, env);
            assert(cube_assign(n1, rest, env) == x);
            assert(cube_assign(n2, rest, env) == x);
            assert(eval(n2, ge, x) == eval(n0, ge, x));
        }
        assert(denotes(n2, t, vt));
        assert(denotes(n2, e, ve));
    }
    lemma_adds_steps(n0, n1, n2, n3, levels, level, value, vt, ve, t, e);
    lemma_adds_same(n0, n3, value, g_neg);
    let other = restrict_fn(n0, f, vars);
    assert forall|env: Set<LevelNo>| #[trigger] other(env) == (value(env) != g_neg) by {
        let x = cube_assign(n0, rest, env);
        lemma_eval_flipped(n0, g, g_neg, x);
    }
}

} // verus!
