//! Laws of picking a conjunction of literals that implies a function.

use super::canonicity::equivalent;
use super::edge::{Edge, EdgeTag, LevelNo};
use super::laws::law_canonical;
use super::manager::Manager;
use super::semantics::{
    else_of, eval, is_inner, lemma_cofactors, lemma_eval_agree, level_of, node_of, then_of,
};
use super::valuation::{agrees, chosen, is_pick, lemma_picked_satisfies, may_pick, picked};
use vstd::prelude::*;

verus! {

/// The assignment gives the variables at the levels from `low` up to `high` the values that `cube`
/// lists for them, if any.
spec fn agrees_above(cube: Seq<Option<bool>>, env: Set<LevelNo>, low: int, high: int) -> bool {
    forall|m: LevelNo|
        low <= m < high && (#[trigger] cube[m as int]) is Some ==> cube[m as int] == Some(
            env.contains(m),
        )
}

/// The part of the path from the level `l` on: its first edge stands for what the function becomes
/// once the variables above have their values.
proof fn lemma_path_below<C: FnMut(&Manager, &Edge) -> bool>(
    manager: &Manager,
    e: Edge,
    choice: C,
    cube: Seq<Option<bool>>,
    from: int,
    l: LevelNo,
) -> (sub: Edge)
    requires
        manager.wf(),
        manager.has(e),
        e != Edge::constant(false),
        cube.len() == manager.levels(),
        0 <= from <= l <= manager.levels(),
        from <= level_of(manager.nodes(), e),
        picked(manager, e, choice, cube, from),
    ensures
        manager.has(sub),
        sub != Edge::constant(false),
        l <= level_of(manager.nodes(), sub),
        picked(manager, sub, choice, cube, l as int),
        forall|env: Set<LevelNo>|
            agrees_above(cube, env, from, l as int) ==> #[trigger] eval(manager.nodes(), e, env)
                == eval(manager.nodes(), sub, env),
    decreases e.node,
{
    let nodes = manager.nodes();
    let levels = manager.levels();
    if level_of(nodes, e) >= l {
        if is_inner(e) {
            lemma_cofactors(nodes, levels, e);
        }
        e
    } else {
        lemma_cofactors(nodes, levels, e);
        let level = node_of(nodes, e).level;
        let next = if cube[level as int] == Some(true) {
            then_of(nodes, e)
        } else {
            else_of(nodes, e)
        };
        let sub = lemma_path_below(manager, next, choice, cube, level + 1, l);
        assert forall|env: Set<LevelNo>| agrees_above(cube, env, from, l as int) implies #[trigger]
        eval(nodes, e, env) == eval(nodes, sub, env) by {
            assert(cube[level as int] == Some(env.contains(level)));
            assert(agrees_above(cube, env, level + 1, l as int));
            assert(eval(nodes, next, env) == eval(nodes, sub, env));
        }
        sub
    }
}

/// The values are followed from top to bottom. Once the variables above the level `l` have the values
/// listed for them, the variable at `l` has a value exactly if the function depends on it. That value
/// is one for which the function can still become true. If it can become true for both values, it is
/// one that the choice may return for the function that is left.
pub proof fn law_pick_choice<C: FnMut(&Manager, &Edge) -> bool>(
    manager: &Manager,
    edge: Edge,
    choice: C,
    values: Seq<Option<bool>>,
    l: LevelNo,
)
    requires
        manager.wf(),
        manager.has(edge),
        edge != (Edge { node: 0, tag: EdgeTag::Complemented }),
        may_pick(manager, edge, Seq::empty(), choice, values),
        l < manager.levels(),
    ensures
        values.len() == manager.levels(),
        values[l as int] is None <==> forall|env: Set<LevelNo>|
            (forall|m: LevelNo|
                m < l && (#[trigger] values[m as int]) is Some ==> values[m as int] == Some(
                    env.contains(m),
                )) ==> #[trigger] eval(manager.nodes(), edge, env.insert(l)) == eval(
                manager.nodes(),
                edge,
                env.remove(l),
            ),
        values[l as int] matches Some(v) ==> exists|sub: Edge| #[trigger]
            manager.has(sub) && sub.node != 0 && manager.nodes()[sub.node - 1].level == l && (
            forall|env: Set<LevelNo>|
                (forall|m: LevelNo|
                    m < l && (#[trigger] values[m as int]) is Some ==> values[m as int] == Some(
                        env.contains(m),
                    )) ==> #[trigger] eval(manager.nodes(), sub, env) == eval(
                    manager.nodes(),
                    edge,
                    env,
                )) && ((exists|env: Set<LevelNo>|
                env.contains(l) != v && (forall|m: LevelNo|
                    m < l && (#[trigger] values[m as int]) is Some ==> values[m as int] == Some(
                        env.contains(m),
                    )) && #[trigger] eval(manager.nodes(), edge, env)) ==> call_ensures(
                choice,
                (manager, &sub),
                v,
            )),
{
    let nodes = manager.nodes();
    let levels = manager.levels();
    let cube = choose|cube: Seq<Option<bool>>| #[trigger]
        is_pick(manager, edge, Seq::empty(), choice, cube, values);
    assert(cube == values);
    let sub = lemma_path_below(manager, edge, choice, values, 0, l);
    assert forall|env: Set<LevelNo>|
        (forall|m: LevelNo|
            m < l && (#[trigger] values[m as int]) is Some ==> values[m as int] == Some(
                env.contains(m),
            )) implies agrees_above(values, env, 0, l as int) by {}
    if level_of(nodes, sub) == l {
        lemma_cofactors(nodes, levels, sub);
        let t = then_of(nodes, sub);
        let e = else_of(nodes, sub);
        let v = values[l as int]->0;
        assert(chosen(manager, sub, choice, v));
        if equivalent(nodes, t, e) {
            law_canonical(nodes, levels, t, e);
        }
        let x = choose|env: Set<LevelNo>| #[trigger] eval(nodes, t, env) != eval(nodes, e, env);
        let y = Set::new(
            |m: LevelNo|
                if m < l {
                    values[m as int] == Some(true)
                } else {
                    x.contains(m)
                },
        );
        assert forall|m: LevelNo|
            m < l && (#[trigger] values[m as int]) is Some implies values[m as int] == Some(
            y.contains(m),
        ) by {}
        let with = y.insert(l);
        let without = y.remove(l);
        assert(agrees_above(values, with, 0, l as int)) by {
            assert forall|m: LevelNo|
                0 <= m < l && (#[trigger] values[m as int]) is Some implies values[m as int] == Some(
                with.contains(m),
            ) by {
                assert(values[m as int] == Some(y.contains(m)));
            }
        }
        assert(agrees_above(values, without, 0, l as int)) by {
            assert forall|m: LevelNo|
                0 <= m < l && (#[trigger] values[m as int]) is Some implies values[m as int] == Some(
                without.contains(m),
            ) by {
                assert(values[m as int] == Some(y.contains(m)));
            }
        }
        lemma_eval_agree(nodes, levels, t, x, with);
        lemma_eval_agree(nodes, levels, e, x, without);
        assert(eval(nodes, edge, with) == eval(nodes, sub, with));
        assert(eval(nodes, edge, without) == eval(nodes, sub, without));
        assert(eval(nodes, edge, y.insert(l)) != eval(nodes, edge, y.remove(l)));
        if exists|env: Set<LevelNo>|
            env.contains(l) != v && (forall|m: LevelNo|
                m < l && (#[trigger] values[m as int]) is Some ==> values[m as int] == Some(
                    env.contains(m),
                )) && #[trigger] eval(nodes, edge, env) {
            let env = choose|env: Set<LevelNo>|
                env.contains(l) != v && (forall|m: LevelNo|
                    m < l && (#[trigger] values[m as int]) is Some ==> values[m as int] == Some(
                        env.contains(m),
                    )) && #[trigger] eval(nodes, edge, env);
            assert(eval(nodes, sub, env));
            assert(call_ensures(choice, (manager, &sub), v));
        }
        assert(manager.has(sub));
        assert(sub.node != 0 && nodes[sub.node - 1].level == l);
        assert forall|env: Set<LevelNo>|
            (forall|m: LevelNo|
                m < l && (#[trigger] values[m as int]) is Some ==> values[m as int] == Some(
                    env.contains(m),
                )) implies #[trigger] eval(nodes, sub, env) == eval(nodes, edge, env) by {
            assert(agrees_above(values, env, 0, l as int));
        }
    } else {
        assert(values[l as int] is None);
        assert forall|env: Set<LevelNo>|
            (forall|m: LevelNo|
                m < l && (#[trigger] values[m as int]) is Some ==> values[m as int] == Some(
                    env.contains(m),
                )) implies #[trigger] eval(nodes, edge, env.insert(l)) == eval(
            nodes,
            edge,
            env.remove(l),
        ) by {
            let with = env.insert(l);
            let without = env.remove(l);
            assert forall|m: LevelNo|
                0 <= m < l && (#[trigger] values[m as int]) is Some implies values[m as int] == Some(
                with.contains(m),
            ) && values[m as int] == Some(without.contains(m)) by {
                assert(values[m as int] == Some(env.contains(m)));
            }
            assert(agrees_above(values, with, 0, l as int));
            assert(agrees_above(values, without, 0, l as int));
            lemma_eval_agree(nodes, levels, sub, with, without);
        }
    }
}

/// With a choice that always returns `b`, a variable gets the other value only if the function cannot
/// become true with `b` any more, given the values of the variables above.
pub proof fn law_pick_constant_choice<C: FnMut(&Manager, &Edge) -> bool>(
    manager: &Manager,
    edge: Edge,
    choice: C,
    values: Seq<Option<bool>>,
    b: bool,
    l: LevelNo,
    env: Set<LevelNo>,
)
    requires
        manager.wf(),
        manager.has(edge),
        edge != (Edge { node: 0, tag: EdgeTag::Complemented }),
        may_pick(manager, edge, Seq::empty(), choice, values),
        forall|x: Edge, v: bool| #[trigger] call_ensures(choice, (manager, &x), v) ==> v == b,
        l < manager.levels(),
        values[l as int] == Some(!b),
        env.contains(l) == b,
        forall|m: LevelNo|
            m < l && (#[trigger] values[m as int]) is Some ==> values[m as int] == Some(
                env.contains(m),
            ),
    ensures
        !eval(manager.nodes(), edge, env),
{
    law_pick_choice(manager, edge, choice, values, l);
}

/// The values in a given order are those by level.
pub proof fn law_pick_order<C: FnMut(&Manager, &Edge) -> bool>(
    manager: &Manager,
    edge: Edge,
    order: Seq<Edge>,
    choice: C,
    values: Seq<Option<bool>>,
)
    requires
        order.len() > 0,
        forall|k: int| 0 <= k < order.len() ==> (#[trigger] order[k]).node != 0,
        may_pick(manager, edge, order, choice, values),
    ensures
        values.len() == order.len(),
        exists|cube: Seq<Option<bool>>| #[trigger]
            may_pick(manager, edge, Seq::empty(), choice, cube) && forall|k: int|
                0 <= k < order.len() ==> values[k] == cube[manager.nodes()[(
                #[trigger] order[k]).node - 1].level as int],
{
    let cube = choose|cube: Seq<Option<bool>>| #[trigger]
        is_pick(manager, edge, order, choice, cube, values);
    assert(is_pick(manager, edge, Seq::empty(), choice, cube, cube));
    assert(may_pick(manager, edge, Seq::empty(), choice, cube));
    assert forall|k: int| 0 <= k < order.len() implies values[k] == cube[manager.nodes()[(
    #[trigger] order[k]).node - 1].level as int] by {
        assert(values[k] == cube[level_of(manager.nodes(), order[k])]);
    }
}

/// Every assignment that gives each variable the value listed for it, if any, satisfies the function.
/// The values are listed by level, or in the order of `order`, in which every variable occurs: that
/// at the level `l` at `place[l]`.
pub proof fn law_pick_satisfies<C: FnMut(&Manager, &Edge) -> bool>(
    manager: &Manager,
    edge: Edge,
    order: Seq<Edge>,
    place: Seq<int>,
    choice: C,
    values: Seq<Option<bool>>,
    env: Set<LevelNo>,
)
    requires
        manager.wf(),
        manager.has(edge),
        edge != (Edge { node: 0, tag: EdgeTag::Complemented }),
        may_pick(manager, edge, order, choice, values),
        forall|k: int| 0 <= k < order.len() ==> (#[trigger] order[k]).node != 0,
        order.len() > 0 ==> forall|l: LevelNo|
            l < manager.levels() ==> 0 <= #[trigger] place[l as int] < order.len()
                && manager.nodes()[order[place[l as int]].node - 1].level == l,
        order.len() > 0 ==> forall|k: int|
            0 <= k < order.len() && (#[trigger] values[k]) is Some ==> values[k] == Some(
                env.contains(manager.nodes()[order[k].node - 1].level),
            ),
        order.len() == 0 ==> forall|l: LevelNo|
            l < values.len() && (#[trigger] values[l as int]) is Some ==> values[l as int] == Some(
                env.contains(l),
            ),
    ensures
        values.len() == manager.levels() || order.len() > 0,
        eval(manager.nodes(), edge, env),
{
    let cube = choose|cube: Seq<Option<bool>>| #[trigger]
        is_pick(manager, edge, order, choice, cube, values);
    if order.len() > 0 {
        assert forall|l: LevelNo|
            l < cube.len() && (#[trigger] cube[l as int]) is Some implies cube[l as int] == Some(
            env.contains(l),
        ) by {
            let k = place[l as int];
            assert(values[k] == cube[level_of(manager.nodes(), order[k])]);
        }
    }
    assert(agrees(cube, env));
    lemma_picked_satisfies(manager, edge, choice, cube, 0, env);
}

} // verus!
