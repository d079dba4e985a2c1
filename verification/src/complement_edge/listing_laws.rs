//! Laws of the operations that take a list of variables: evaluation and substitution.

use super::edge::{Edge, EdgeTag, InnerNode, LevelNo};
use super::operators::subst_env;
use super::semantics::{eval, is_diagram, node_ok};
use super::substitution::{below_substituted, pairs_map, pairs_valid};
use super::valuation::{args_env, args_valid};
use vstd::prelude::*;

verus! {

/// What the edges stand for: the terminal is "true", an inner node decides on the variable at its
/// level, and a complemented edge stands for the negation.
pub proof fn law_eval(nodes: Seq<InnerNode>, levels: LevelNo, i: int, env: Set<LevelNo>)
    requires
        is_diagram(nodes, levels),
        nodes.len() < 0x1_0000_0000,
    ensures
        eval(nodes, (Edge { node: 0, tag: EdgeTag::Regular }), env),
        !eval(nodes, (Edge { node: 0, tag: EdgeTag::Complemented }), env),
        0 <= i < nodes.len() ==> eval(
            nodes,
            (Edge { node: (i + 1) as u32, tag: EdgeTag::Regular }),
            env,
        ) == if env.contains(nodes[i].level) {
            eval(nodes, nodes[i].t, env)
        } else {
            eval(nodes, nodes[i].e, env)
        },
        0 <= i < nodes.len() ==> eval(
            nodes,
            (Edge { node: (i + 1) as u32, tag: EdgeTag::Complemented }),
            env,
        ) != eval(nodes, (Edge { node: (i + 1) as u32, tag: EdgeTag::Regular }), env),
{
    if 0 <= i < nodes.len() {
        assert(node_ok(nodes, levels, i));
    }
}

// ---------------------------------------------------------------------------------------------
// Evaluation

/// Arguments can be evaluated exactly if each of them refers to an inner node of the diagram.
pub proof fn law_arguments_valid(nodes: Seq<InnerNode>, args: Seq<(Edge, bool)>)
    ensures
        args_valid(nodes, args) <==> forall|k: int|
            0 <= k < args.len() ==> 0 < (#[trigger] args[k]).0.node <= nodes.len(),
{
}

/// A variable that is listed has the last value listed for it.
pub proof fn law_arguments(nodes: Seq<InnerNode>, args: Seq<(Edge, bool)>, k: int)
    requires
        0 <= k < args.len(),
        forall|j: int|
            k < j < args.len() ==> nodes[(#[trigger] args[j]).0.node - 1].level
                != nodes[args[k].0.node - 1].level,
    ensures
        args_env(nodes, args).contains(nodes[args[k].0.node - 1].level) <==> args[k].1,
    decreases args.len(),
{
    let init = args.drop_last();
    let n = args.len() - 1;
    if k < n {
        assert(init[k] == args[k]);
        assert(args[n] == args.last());
        assert forall|j: int| k < j < init.len() implies nodes[(#[trigger] init[j]).0.node - 1].level
            != nodes[init[k].0.node - 1].level by {
            assert(init[j] == args[j]);
        }
        law_arguments(nodes, init, k);
    }
}

/// A variable that is not listed is false.
pub proof fn law_arguments_others(nodes: Seq<InnerNode>, args: Seq<(Edge, bool)>, l: LevelNo)
    requires
        forall|k: int| 0 <= k < args.len() ==> nodes[(#[trigger] args[k]).0.node - 1].level != l,
    ensures
        !args_env(nodes, args).contains(l),
    decreases args.len(),
{
    if args.len() > 0 {
        let init = args.drop_last();
        assert(args[args.len() - 1] == args.last());
        assert forall|k: int| 0 <= k < init.len() implies nodes[(#[trigger] init[k]).0.node
            - 1].level != l by {
            assert(init[k] == args[k]);
        }
        law_arguments_others(nodes, init, l);
    }
}

/// The assignment for arguments that list no variable twice is the one that gives each variable its
/// value and makes all others false.
pub proof fn law_arguments_assign(
    nodes: Seq<InnerNode>,
    args: Seq<(Edge, bool)>,
    env: Set<LevelNo>,
)
    requires
        forall|j: int, k: int|
            0 <= j < k < args.len() ==> nodes[(#[trigger] args[j]).0.node - 1].level != nodes[(
            #[trigger] args[k]).0.node - 1].level,
        forall|k: int|
            0 <= k < args.len() ==> (env.contains(nodes[(#[trigger] args[k]).0.node - 1].level)
                <==> args[k].1),
        forall|l: LevelNo|
            (forall|k: int|
                0 <= k < args.len() ==> nodes[(#[trigger] args[k]).0.node - 1].level != l)
                ==> !#[trigger] env.contains(l),
    ensures
        args_env(nodes, args) == env,
{
    let all = args_env(nodes, args);
    assert forall|l: LevelNo| all.contains(l) == env.contains(l) by {
        if exists|k: int| 0 <= k < args.len() && nodes[(#[trigger] args[k]).0.node - 1].level == l {
            let k = choose|k: int|
                0 <= k < args.len() && nodes[(#[trigger] args[k]).0.node - 1].level == l;
            law_arguments(nodes, args, k);
        } else {
            law_arguments_others(nodes, args, l);
        }
    }
    assert(all =~= env);
}

/// The order of arguments that list no variable twice does not matter.
pub proof fn law_arguments_order(
    nodes: Seq<InnerNode>,
    a: Seq<(Edge, bool)>,
    b: Seq<(Edge, bool)>,
)
    requires
        forall|j: int, k: int|
            0 <= j < k < a.len() ==> nodes[(#[trigger] a[j]).0.node - 1].level != nodes[(
            #[trigger] a[k]).0.node - 1].level,
        forall|j: int, k: int|
            0 <= j < k < b.len() ==> nodes[(#[trigger] b[j]).0.node - 1].level != nodes[(
            #[trigger] b[k]).0.node - 1].level,
        forall|arg: (Edge, bool)| #[trigger] a.contains(arg) <==> b.contains(arg),
    ensures
        args_env(nodes, a) == args_env(nodes, b),
{
    let x = args_env(nodes, a);
    let y = args_env(nodes, b);
    assert forall|l: LevelNo| x.contains(l) == y.contains(l) by {
        if exists|k: int| 0 <= k < a.len() && nodes[(#[trigger] a[k]).0.node - 1].level == l {
            let k = choose|k: int|
                0 <= k < a.len() && nodes[(#[trigger] a[k]).0.node - 1].level == l;
            assert(a.contains(a[k]));
            let i = choose|i: int| 0 <= i < b.len() && b[i] == a[k];
            law_arguments(nodes, a, k);
            law_arguments(nodes, b, i);
        } else {
            law_arguments_others(nodes, a, l);
            assert forall|i: int| 0 <= i < b.len() implies nodes[(#[trigger] b[i]).0.node - 1].level
                != l by {
                assert(b.contains(b[i]));
                assert(a.contains(b[i]));
                let k = choose|k: int| 0 <= k < a.len() && a[k] == b[i];
            }
            law_arguments_others(nodes, b, l);
        }
    }
    assert(x =~= y);
}

// ---------------------------------------------------------------------------------------------
// Substitution

/// Pairs can be substituted exactly if the first of each refers to an inner node of the diagram and the
/// second to any node of it.
pub proof fn law_replacements_valid(nodes: Seq<InnerNode>, pairs: Seq<(Edge, Edge)>)
    ensures
        pairs_valid(nodes, pairs) <==> forall|k: int|
            0 <= k < pairs.len() ==> 0 < (#[trigger] pairs[k]).0.node <= nodes.len()
                && pairs[k].1.node <= nodes.len(),
{
}

/// A variable that is listed is replaced by the last function listed for it.
pub proof fn law_replacements(nodes: Seq<InnerNode>, pairs: Seq<(Edge, Edge)>, k: int)
    requires
        0 <= k < pairs.len(),
        forall|j: int|
            k < j < pairs.len() ==> nodes[(#[trigger] pairs[j]).0.node - 1].level
                != nodes[pairs[k].0.node - 1].level,
    ensures
        pairs_map(nodes, pairs).contains_key(nodes[pairs[k].0.node - 1].level),
        pairs_map(nodes, pairs)[nodes[pairs[k].0.node - 1].level] == pairs[k].1,
    decreases pairs.len(),
{
    let init = pairs.drop_last();
    let n = pairs.len() - 1;
    if k < n {
        assert(init[k] == pairs[k]);
        assert(pairs[n] == pairs.last());
        assert forall|j: int| k < j < init.len() implies nodes[(#[trigger] init[j]).0.node - 1].level
            != nodes[init[k].0.node - 1].level by {
            assert(init[j] == pairs[j]);
        }
        law_replacements(nodes, init, k);
    }
}

/// A variable that is not listed is not replaced.
pub proof fn law_replacements_others(nodes: Seq<InnerNode>, pairs: Seq<(Edge, Edge)>, l: LevelNo)
    requires
        forall|k: int| 0 <= k < pairs.len() ==> nodes[(#[trigger] pairs[k]).0.node - 1].level != l,
    ensures
        !pairs_map(nodes, pairs).contains_key(l),
    decreases pairs.len(),
{
    if pairs.len() > 0 {
        let init = pairs.drop_last();
        assert(pairs[pairs.len() - 1] == pairs.last());
        assert forall|k: int| 0 <= k < init.len() implies nodes[(#[trigger] init[k]).0.node
            - 1].level != l by {
            assert(init[k] == pairs[k]);
        }
        law_replacements_others(nodes, init, l);
    }
}

/// The last pair for the variable of the pair at `k`.
proof fn lemma_last_pair(nodes: Seq<InnerNode>, pairs: Seq<(Edge, Edge)>, k: int) -> (last: int)
    requires
        0 <= k < pairs.len(),
    ensures
        k <= last < pairs.len(),
        nodes[pairs[last].0.node - 1].level == nodes[pairs[k].0.node - 1].level,
        forall|j: int|
            last < j < pairs.len() ==> nodes[(#[trigger] pairs[j]).0.node - 1].level
                != nodes[pairs[last].0.node - 1].level,
    decreases pairs.len() - k,
{
    if exists|j: int|
        k < j < pairs.len() && nodes[(#[trigger] pairs[j]).0.node - 1].level
            == nodes[pairs[k].0.node - 1].level {
        let j = choose|j: int|
            k < j < pairs.len() && nodes[(#[trigger] pairs[j]).0.node - 1].level
                == nodes[pairs[k].0.node - 1].level;
        lemma_last_pair(nodes, pairs, j)
    } else {
        k
    }
}

/// The order of pairs that list no variable twice does not matter.
pub proof fn law_replacements_order(
    nodes: Seq<InnerNode>,
    a: Seq<(Edge, Edge)>,
    b: Seq<(Edge, Edge)>,
)
    requires
        forall|j: int, k: int|
            0 <= j < k < a.len() ==> nodes[(#[trigger] a[j]).0.node - 1].level != nodes[(
            #[trigger] a[k]).0.node - 1].level,
        forall|j: int, k: int|
            0 <= j < k < b.len() ==> nodes[(#[trigger] b[j]).0.node - 1].level != nodes[(
            #[trigger] b[k]).0.node - 1].level,
        forall|pair: (Edge, Edge)| #[trigger] a.contains(pair) <==> b.contains(pair),
    ensures
        pairs_map(nodes, a) == pairs_map(nodes, b),
{
    let x = pairs_map(nodes, a);
    let y = pairs_map(nodes, b);
    assert forall|l: LevelNo| #[trigger] x.dom().contains(l) == y.dom().contains(l) && (
    x.dom().contains(l) ==> x[l] == y[l]) by {
        if exists|k: int| 0 <= k < a.len() && nodes[(#[trigger] a[k]).0.node - 1].level == l {
            let k = choose|k: int|
                0 <= k < a.len() && nodes[(#[trigger] a[k]).0.node - 1].level == l;
            assert(a.contains(a[k]));
            let i = choose|i: int| 0 <= i < b.len() && b[i] == a[k];
            law_replacements(nodes, a, k);
            law_replacements(nodes, b, i);
        } else {
            law_replacements_others(nodes, a, l);
            assert forall|i: int| 0 <= i < b.len() implies nodes[(#[trigger] b[i]).0.node - 1].level
                != l by {
                assert(b.contains(b[i]));
                assert(a.contains(b[i]));
                let k = choose|k: int| 0 <= k < a.len() && a[k] == b[i];
            }
            law_replacements_others(nodes, b, l);
        }
    }
    assert(x =~= y);
}

/// Substitution evaluates the function with the value of the last function listed for a variable in
/// place of that of the variable; all functions are evaluated under the assignment as it was.
pub proof fn law_substitute_listed(
    nodes: Seq<InnerNode>,
    pairs: Seq<(Edge, Edge)>,
    env: Set<LevelNo>,
    k: int,
)
    requires
        0 <= k < pairs.len(),
        forall|j: int|
            k < j < pairs.len() ==> nodes[(#[trigger] pairs[j]).0.node - 1].level
                != nodes[pairs[k].0.node - 1].level,
    ensures
        subst_env(nodes, pairs_map(nodes, pairs), env).contains(nodes[pairs[k].0.node - 1].level)
            <==> eval(nodes, pairs[k].1, env),
{
    law_replacements(nodes, pairs, k);
}

/// Substitution leaves the values of the variables that are not listed as they are.
pub proof fn law_substitute_others(
    nodes: Seq<InnerNode>,
    pairs: Seq<(Edge, Edge)>,
    env: Set<LevelNo>,
    l: LevelNo,
)
    requires
        forall|k: int| 0 <= k < pairs.len() ==> nodes[(#[trigger] pairs[k]).0.node - 1].level != l,
    ensures
        subst_env(nodes, pairs_map(nodes, pairs), env).contains(l) <==> env.contains(l),
{
    law_replacements_others(nodes, pairs, l);
}

/// All variables that are replaced lie above an edge exactly if each variable that is listed does.
pub proof fn law_below_replacements(nodes: Seq<InnerNode>, pairs: Seq<(Edge, Edge)>, e: Edge)
    ensures
        e.node != 0 ==> (below_substituted(nodes, pairs_map(nodes, pairs), e) <==> forall|k: int|
            0 <= k < pairs.len() ==> nodes[(#[trigger] pairs[k]).0.node - 1].level < nodes[e.node
                - 1].level),
        e.node == 0 ==> below_substituted(nodes, pairs_map(nodes, pairs), e),
{
    let m = pairs_map(nodes, pairs);
    if e.node != 0 {
        let level = nodes[e.node - 1].level;
        if below_substituted(nodes, m, e) {
            assert forall|k: int| 0 <= k < pairs.len() implies nodes[(#[trigger] pairs[k]).0.node
                - 1].level < level by {
                let last = lemma_last_pair(nodes, pairs, k);
                law_replacements(nodes, pairs, last);
            }
        }
        if forall|k: int|
            0 <= k < pairs.len() ==> nodes[(#[trigger] pairs[k]).0.node - 1].level < level {
            assert forall|l: LevelNo| #[trigger] m.contains_key(l) implies l < level by {
                if l >= level {
                    law_replacements_others(nodes, pairs, l);
                }
            }
        }
    }
}

} // verus!
