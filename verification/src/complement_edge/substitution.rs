//! Substitutions of functions for variables.

use super::canonicity::{adds_decision, node_for};
use super::edge::{Edge, InnerNode, LevelNo, Node};
use super::manager::{variable_node, Manager};
use super::operators::{represents, subst_valid};
use super::semantics::{eval, is_inner, lemma_extends, level_of, node_of, node_ok, valid};
use super::{get_terminal, reduce};
use crate::util::AllocResult;
use vstd::prelude::*;

verus! {

/// A substitution: a number that identifies it, and pairs of a variable and its replacement.
///
/// Results are cached under the number. Hence two different substitutions that are used with one
/// manager must not have the same number.
pub struct Substitution {
    /// The number.
    pub id: u32,
    /// The variables, each with the function that replaces it. If a variable occurs more than
    /// once, the last pair counts.
    pub pairs: Vec<(Edge, Edge)>,
}

/// The replacement for the variable at each level.
pub open spec fn pairs_map(nodes: Seq<InnerNode>, pairs: Seq<(Edge, Edge)>) -> Map<LevelNo, Edge>
    decreases pairs.len(),
{
    if pairs.len() == 0 {
        Map::empty()
    } else {
        pairs_map(nodes, pairs.drop_last()).insert(
            node_of(nodes, pairs.last().0).level,
            pairs.last().1,
        )
    }
}

/// The pairs refer to nodes of the diagram, and the first of each refers to a variable.
pub open spec fn pairs_valid(nodes: Seq<InnerNode>, pairs: Seq<(Edge, Edge)>) -> bool {
    forall|i: int|
        0 <= i < pairs.len() ==> valid(nodes, (#[trigger] pairs[i]).0) && is_inner(pairs[i].0)
            && valid(nodes, pairs[i].1)
}

/// All variables that are replaced are above `e`.
pub open spec fn below_substituted(
    nodes: Seq<InnerNode>,
    map: Map<LevelNo, Edge>,
    e: Edge,
) -> bool {
    forall|l: LevelNo| #[trigger] map.contains_key(l) ==> l < level_of(nodes, e)
}

/// The replacements are functions of the diagram.
pub proof fn lemma_pairs_map_valid(nodes: Seq<InnerNode>, pairs: Seq<(Edge, Edge)>)
    requires
        pairs_valid(nodes, pairs),
    ensures
        subst_valid(nodes, pairs_map(nodes, pairs)),
    decreases pairs.len(),
{
    if pairs.len() > 0 {
        let init = pairs.drop_last();
        assert forall|i: int| 0 <= i < init.len() implies valid(nodes, (#[trigger] init[i]).0)
            && is_inner(init[i].0) && valid(nodes, init[i].1) by {
            assert(init[i] == pairs[i]);
        }
        lemma_pairs_map_valid(nodes, init);
        assert(pairs.last() == pairs[pairs.len() - 1]);
    }
}

/// Lists the replacements level by level, with the variable itself where there is no replacement.
pub(crate) fn substitute_prepare(manager: &mut Manager, pairs: &[(Edge, Edge)]) -> (r: AllocResult<
    Vec<Edge>,
>)
    requires
        old(manager).wf(),
        pairs_valid(old(manager).nodes(), pairs@),
    ensures
        final(manager).wf(),
        old(manager).grows_to(final(manager)),
        final(manager).nodes() == old(manager).nodes(),
        final(manager).cached() == old(manager).cached(),
        r is Ok,
        r matches Ok(subst) ==> {
            let map = pairs_map(old(manager).nodes(), pairs@);
            &&& represents(final(manager).nodes(), subst@, map)
            &&& subst@.len() <= old(manager).levels()
            &&& subst@.len() > 0 ==> map.contains_key((subst@.len() - 1) as LevelNo)
        },
{
    let ghost m0 = *manager;
    let ghost map = pairs_map(m0.nodes(), pairs@);
    let mut slots: Vec<Option<Edge>> = Vec::new();
    let mut i: usize = 0;
    assert(pairs@.take(0) =~= Seq::empty());
    while i < pairs.len()
        invariant
            i <= pairs@.len(),
            *manager == m0,
            *old(manager) == m0,
            m0.wf(),
            pairs_valid(m0.nodes(), pairs@),
            slots@.len() <= m0.levels(),
            forall|l: LevelNo|
                l < slots@.len() ==> #[trigger] slots@[l as int] == (if pairs_map(
                    m0.nodes(),
                    pairs@.take(i as int),
                ).contains_key(l) {
                    Some(pairs_map(m0.nodes(), pairs@.take(i as int))[l])
                } else {
                    None
                }),
            forall|l: LevelNo| #[trigger]
                pairs_map(m0.nodes(), pairs@.take(i as int)).contains_key(l) ==> l < slots@.len(),
            slots@.len() > 0 ==> pairs_map(m0.nodes(), pairs@.take(i as int)).contains_key(
                (slots@.len() - 1) as LevelNo,
            ),
        decreases pairs@.len() - i,
    {
        let (var, replacement) = pairs[i];
        assert(valid(m0.nodes(), pairs@[i as int].0));
        let level: LevelNo = match manager.get_node(var) {
            Node::Inner(n) => n.level,
            Node::Terminal => 0,
        };
        proof {
            assert(node_ok(m0.nodes(), m0.levels(), var.node - 1));
            assert(pairs@.take(i + 1).drop_last() =~= pairs@.take(i as int));
            assert(pairs@.take(i + 1).last() == pairs@[i as int]);
        }
        let ghost before = slots@;
        while slots.len() <= level as usize
            invariant
                before.len() <= slots@.len() <= m0.levels(),
                level < m0.levels(),
                slots@.len() <= level || slots@.len() == before.len() || slots@.len() == level + 1,
                forall|j: int| 0 <= j < before.len() ==> slots@[j] == before[j],
                forall|j: int| before.len() <= j < slots@.len() ==> slots@[j] is None,
            decreases level + 1 - slots@.len(),
        {
            slots.push(None);
        }
        slots.set(level as usize, Some(replacement));
        proof {
            let m1 = pairs_map(m0.nodes(), pairs@.take(i as int));
            let m2 = pairs_map(m0.nodes(), pairs@.take(i + 1));
            assert(m2 == m1.insert(level, replacement));
            assert forall|l: LevelNo| l < slots@.len() implies #[trigger] slots@[l as int] == (
            if m2.contains_key(l) {
                Some(m2[l])
            } else {
                None
            }) by {
                if l != level {
                    if l < before.len() {
                        assert(slots@[l as int] == before[l as int]);
                    } else {
                        assert(!m1.contains_key(l));
                    }
                }
            }
        }
        i = i + 1;
    }
    assert(pairs@.take(pairs@.len() as int) =~= pairs@);
    let mut res: Vec<Edge> = Vec::new();
    let mut level: usize = 0;
    proof {
        lemma_pairs_map_valid(m0.nodes(), pairs@);
    }
    while level < slots.len()
        invariant
            level <= slots@.len() <= m0.levels(),
            res@.len() == level,
            *old(manager) == m0,
            m0.wf(),
            manager.wf(),
            m0.grows_to(manager),
            manager.nodes() == m0.nodes(),
            manager.cached() == m0.cached(),
            subst_valid(m0.nodes(), map),
            forall|l: LevelNo|
                l < slots@.len() ==> #[trigger] slots@[l as int] == (if map.contains_key(l) {
                    Some(map[l])
                } else {
                    None
                }),
            forall|l: LevelNo| #[trigger] map.contains_key(l) ==> l < slots@.len(),
            slots@.len() > 0 ==> map.contains_key((slots@.len() - 1) as LevelNo),
            forall|l: LevelNo| l < level && map.contains_key(l) ==> #[trigger] res@[l as int] == map[l],
            forall|j: int| 0 <= j < level ==> valid(manager.nodes(), #[trigger] res@[j]),
            forall|l: LevelNo, env: Set<LevelNo>|
                l < level && !map.contains_key(l) ==> #[trigger] eval(
                    manager.nodes(),
                    res@[l as int],
                    env,
                ) == env.contains(l),
        decreases slots@.len() - level,
    {
        let ghost m1 = *manager;
        let ghost res1 = res@;
        let l: LevelNo = level as LevelNo;
        assert(slots@[l as int] == (if map.contains_key(l) {
            Some(map[l])
        } else {
            None
        }));
        let e = match slots[level] {
            Some(e) => e,
            None => {
                proof {
                    reveal(adds_decision);
                }
                assert(node_for(l, Edge::constant(true), Edge::constant(false)) == variable_node(l));
                match reduce(manager, l, get_terminal(true), get_terminal(false)) {
                    Ok(e) => e,
                    Err(err) => return Err(err),
                }
            },
        };
        res.push(e);
        proof {
            lemma_extends(m1.nodes(), manager.nodes(), m0.levels());
            lemma_extends(m0.nodes(), manager.nodes(), m0.levels());
            assert forall|j: int| 0 <= j < level + 1 implies valid(
                manager.nodes(),
                #[trigger] res@[j],
            ) by {
                if j < level {
                    assert(valid(m1.nodes(), res1[j]));
                }
            }
            assert forall|k: LevelNo, env: Set<LevelNo>|
                k < level + 1 && !map.contains_key(k) implies #[trigger] eval(
                manager.nodes(),
                res@[k as int],
                env,
            ) == env.contains(k) by {
                if k < level {
                    assert(valid(m1.nodes(), res1[k as int]));
                    assert(eval(m1.nodes(), res1[k as int], env) == env.contains(k));
                }
            }
        }
        level = level + 1;
    }
    Ok(res)
}

} // verus!
