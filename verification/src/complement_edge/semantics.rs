//! What the edges of a diagram stand for.
//!
//! A diagram is a sequence of inner nodes; node number `i + 1` is the entry at index `i`. An
//! assignment of truth values to variables is the set of those levels whose variable is true.

use super::edge::{BCDDOp, Edge, InnerNode, LevelNo};
use vstd::prelude::*;

verus! {

/// The level assigned to the terminal, below every level of an inner node.
pub const BOTTOM: u64 = 0x1_0000_0000;

/// The edge refers to a node of the diagram.
pub open spec fn valid(nodes: Seq<InnerNode>, e: Edge) -> bool {
    e.node <= nodes.len()
}

/// The edge refers to an inner node.
pub open spec fn is_inner(e: Edge) -> bool {
    e.node != 0
}

/// The inner node that the edge refers to.
pub open spec fn node_of(nodes: Seq<InnerNode>, e: Edge) -> InnerNode {
    nodes[e.node - 1]
}

/// The level of the node that the edge refers to.
pub open spec fn level_of(nodes: Seq<InnerNode>, e: Edge) -> int {
    if is_inner(e) {
        node_of(nodes, e).level as int
    } else {
        BOTTOM as int
    }
}

/// The assignment `env` with the variable at `level` set to `value`.
pub open spec fn assign(env: Set<LevelNo>, level: LevelNo, value: bool) -> Set<LevelNo> {
    if value {
        env.insert(level)
    } else {
        env.remove(level)
    }
}

/// The truth value of `e` under the assignment `env`.
pub open spec fn eval(nodes: Seq<InnerNode>, e: Edge, env: Set<LevelNo>) -> bool
    decreases e.node,
{
    if e.node == 0 || e.node > nodes.len() {
        !e.neg()
    } else {
        let n = nodes[e.node - 1];
        let c = if env.contains(n.level) {
            n.t
        } else {
            n.e
        };
        if c.node < e.node {
            eval(nodes, c, env) != e.neg()
        } else {
            !e.neg()
        }
    }
}

/// The then-cofactor of `e` with respect to its own top variable.
pub open spec fn then_of(nodes: Seq<InnerNode>, e: Edge) -> Edge {
    node_of(nodes, e).t.flipped(e.neg())
}

/// The else-cofactor of `e` with respect to its own top variable.
pub open spec fn else_of(nodes: Seq<InnerNode>, e: Edge) -> Edge {
    node_of(nodes, e).e.flipped(e.neg())
}

/// The node at index `i` is ordered and reduced, and its then-edge is not complemented.
pub open spec fn node_ok(nodes: Seq<InnerNode>, levels: LevelNo, i: int) -> bool {
    let n = nodes[i];
    &&& n.level < levels
    &&& n.t.node <= i
    &&& n.e.node <= i
    &&& level_of(nodes, n.t) > n.level
    &&& level_of(nodes, n.e) > n.level
    &&& !n.t.neg()
    &&& n.t != n.e
}

/// The nodes form a reduced ordered diagram over `levels` variables: every node is fine by itself,
/// and no node occurs twice.
pub open spec fn is_diagram(nodes: Seq<InnerNode>, levels: LevelNo) -> bool {
    &&& forall|i: int| 0 <= i < nodes.len() ==> #[trigger] node_ok(nodes, levels, i)
    &&& forall|i: int, j: int|
        0 <= i < j < nodes.len() ==> #[trigger] nodes[i] != #[trigger] nodes[j]
}

/// Every node of `a` is the same node in `b`.
pub open spec fn extends(a: Seq<InnerNode>, b: Seq<InnerNode>) -> bool {
    &&& a.len() <= b.len()
    &&& forall|i: int| 0 <= i < a.len() ==> #[trigger] b[i] == a[i]
}

/// The conjunction (`And`) or the exclusive disjunction (`Xor`) of `a` and `b`.
pub open spec fn bin_value(op: BCDDOp, a: bool, b: bool) -> bool {
    if op == BCDDOp::And {
        a && b
    } else {
        a != b
    }
}

/// Adding nodes changes neither the level nor the function of an edge.
pub proof fn lemma_extends(a: Seq<InnerNode>, b: Seq<InnerNode>, levels: LevelNo)
    requires
        is_diagram(a, levels),
        extends(a, b),
    ensures
        forall|e: Edge| #[trigger] valid(a, e) ==> valid(b, e),
        forall|e: Edge| valid(a, e) ==> #[trigger] level_of(b, e) == level_of(a, e),
        forall|e: Edge, env: Set<LevelNo>|
            valid(a, e) ==> #[trigger] eval(b, e, env) == eval(a, e, env),
{
    assert forall|e: Edge, env: Set<LevelNo>| valid(a, e) implies #[trigger] eval(b, e, env)
        == eval(a, e, env) by {
        lemma_eval_extends(a, b, levels, e, env);
    }
}

proof fn lemma_eval_extends(
    a: Seq<InnerNode>,
    b: Seq<InnerNode>,
    levels: LevelNo,
    e: Edge,
    env: Set<LevelNo>,
)
    requires
        is_diagram(a, levels),
        extends(a, b),
        valid(a, e),
    ensures
        eval(b, e, env) == eval(a, e, env),
    decreases e.node,
{
    if e.node != 0 {
        let n = a[e.node - 1];
        assert(node_ok(a, levels, e.node - 1));
        assert(b[e.node - 1] == n);
        lemma_eval_extends(a, b, levels, n.t, env);
        lemma_eval_extends(a, b, levels, n.e, env);
    }
}

/// Flipping the tag of an edge negates its function.
pub proof fn lemma_eval_flipped(nodes: Seq<InnerNode>, e: Edge, flip: bool, env: Set<LevelNo>)
    ensures
        eval(nodes, e.flipped(flip), env) == (eval(nodes, e, env) != flip),
{
}

/// Flipping the tag of any edge negates its function.
pub proof fn lemma_negation(nodes: Seq<InnerNode>)
    ensures
        forall|e: Edge, env: Set<LevelNo>| #[trigger]
            eval(nodes, e.flipped(true), env) == !eval(nodes, e, env),
{
    assert forall|e: Edge, env: Set<LevelNo>| #[trigger]
        eval(nodes, e.flipped(true), env) == !eval(nodes, e, env) by {
        lemma_eval_flipped(nodes, e, true, env);
    }
}

/// The function of an edge depends on the variables at its level and below only.
pub proof fn lemma_eval_agree(
    nodes: Seq<InnerNode>,
    levels: LevelNo,
    e: Edge,
    env1: Set<LevelNo>,
    env2: Set<LevelNo>,
)
    requires
        is_diagram(nodes, levels),
        valid(nodes, e),
        forall|l: LevelNo|
            l >= level_of(nodes, e) ==> #[trigger] env1.contains(l) == env2.contains(l),
    ensures
        eval(nodes, e, env1) == eval(nodes, e, env2),
    decreases e.node,
{
    if e.node != 0 {
        let n = nodes[e.node - 1];
        assert(node_ok(nodes, levels, e.node - 1));
        assert(env1.contains(n.level) == env2.contains(n.level));
        lemma_eval_agree(nodes, levels, n.t, env1, env2);
        lemma_eval_agree(nodes, levels, n.e, env1, env2);
    }
}

/// An edge to an inner node is the decision between its cofactors, which lie below it.
pub proof fn lemma_cofactors(nodes: Seq<InnerNode>, levels: LevelNo, e: Edge)
    requires
        is_diagram(nodes, levels),
        valid(nodes, e),
        is_inner(e),
    ensures
        level_of(nodes, e) < levels,
        valid(nodes, then_of(nodes, e)),
        valid(nodes, else_of(nodes, e)),
        then_of(nodes, e).node < e.node,
        else_of(nodes, e).node < e.node,
        level_of(nodes, then_of(nodes, e)) > level_of(nodes, e),
        level_of(nodes, else_of(nodes, e)) > level_of(nodes, e),
        then_of(nodes, e) != else_of(nodes, e),
        then_of(nodes, e).neg() == e.neg(),
        forall|env: Set<LevelNo>| #[trigger]
            eval(nodes, e, env) == if env.contains(node_of(nodes, e).level) {
                eval(nodes, then_of(nodes, e), env)
            } else {
                eval(nodes, else_of(nodes, e), env)
            },
{
    let n = nodes[e.node - 1];
    assert(node_ok(nodes, levels, e.node - 1));
    assert forall|env: Set<LevelNo>| #[trigger]
        eval(nodes, e, env) == if env.contains(n.level) {
            eval(nodes, then_of(nodes, e), env)
        } else {
            eval(nodes, else_of(nodes, e), env)
        } by {
        lemma_eval_flipped(nodes, n.t, e.neg(), env);
        lemma_eval_flipped(nodes, n.e, e.neg(), env);
    }
}

} // verus!
