//! Binary decision diagrams with complement edges.

pub mod apply_rec_mt;
pub mod apply_rec_st;
pub mod canonicity;
pub mod cube_laws;
pub mod edge;
pub mod growth;
pub mod laws;
pub mod listing_laws;
pub mod manager;
pub mod operators;
pub mod pick_laws;
pub mod result_laws;
pub mod semantics;
pub mod substitution;
pub mod valuation;

use self::canonicity::{adds_decision, cofactors, node_for};
use self::edge::{BCDDOp, Edge, EdgeTag, InnerNode, LevelNo, Node};
use self::manager::Manager;
use self::operators::{is_bin, lemma_var_set_below, popped, var_set};
use self::semantics::{
    else_of, eval, is_inner, lemma_cofactors, lemma_eval_flipped, lemma_extends, level_of, node_of,
    then_of,
};
use crate::util::AllocResult;
use vstd::prelude::*;

verus! {

/// The negation of `e`.
pub fn not(e: Edge) -> (r: Edge)
    ensures
        r == e.flipped(true),
{
    e.xor_tag(EdgeTag::Complemented)
}

/// The edge that stands for the constant `val`.
pub fn get_terminal(val: bool) -> (r: Edge)
    ensures
        r == Edge::constant(val),
{
    Edge { node: 0, tag: EdgeTag::from_neg(!val) }
}

/// The children of `node`, complemented if `tag` says so: the cofactors of an edge that points to
/// `node` with the tag `tag`.
pub fn collect_cofactors(tag: EdgeTag, node: InnerNode) -> (r: (Edge, Edge))
    ensures
        r.0 == node.t.flipped(tag == EdgeTag::Complemented),
        r.1 == node.e.flipped(tag == EdgeTag::Complemented),
{
    (node.t.xor_tag(tag), node.e.xor_tag(tag))
}

/// The cofactors of `f` with respect to the variable at `level`, where `f` points to `node`, at
/// that level or below.
pub(crate) fn cofactors_at(manager: &Manager, f: Edge, node: InnerNode, level: LevelNo) -> (r: (
    Edge,
    Edge,
))
    requires
        manager.wf(),
        manager.has(f),
        is_inner(f),
        node == node_of(manager.nodes(), f),
        level <= node.level,
    ensures
        level < manager.levels(),
        manager.has(r.0),
        manager.has(r.1),
        r.0.node <= f.node,
        r.1.node <= f.node,
        node.level == level ==> r.0.node < f.node && r.1.node < f.node,
        level_of(manager.nodes(), r.0) > level,
        level_of(manager.nodes(), r.1) > level,
        forall|env: Set<LevelNo>| #[trigger]
            eval(manager.nodes(), f, env) == if env.contains(level) {
                eval(manager.nodes(), r.0, env)
            } else {
                eval(manager.nodes(), r.1, env)
            },
        cofactors(manager.nodes(), level, f, r.0, r.1),
{
    proof {
        reveal(cofactors);
        lemma_cofactors(manager.nodes(), manager.levels(), f);
    }
    if node.level == level {
        collect_cofactors(f.tag, node)
    } else {
        (f, f)
    }
}

/// Returns the edge for the decision on the variable at `level` between `t` and `e`.
///
/// If both are the same, no decision is needed. The then-edge of a node is never complemented: a
/// complemented `t` is turned into a complemented result.
pub(crate) fn reduce(manager: &mut Manager, level: LevelNo, t: Edge, e: Edge) -> (r: AllocResult<
    Edge,
>)
    requires
        old(manager).wf(),
        old(manager).has(t),
        old(manager).has(e),
        level < old(manager).levels(),
        level_of(old(manager).nodes(), t) > level,
        level_of(old(manager).nodes(), e) > level,
    ensures
        final(manager).wf(),
        old(manager).grows_to(final(manager)),
        r is Err <==> old(manager).is_full() && t != e && !old(manager).nodes().contains(
            node_for(level, t, e),
        ),
        r is Err ==> final(manager).nodes() == old(manager).nodes(),
        r is Ok ==> adds_decision(old(manager).nodes(), final(manager).nodes(), level, t, e),
        final(manager).cached() == old(manager).cached(),
        match r {
            Ok(h) => {
                &&& final(manager).has(h)
                &&& level_of(final(manager).nodes(), h) >= level
                &&& forall|env: Set<LevelNo>| #[trigger]
                    eval(final(manager).nodes(), h, env) == if env.contains(level) {
                        eval(old(manager).nodes(), t, env)
                    } else {
                        eval(old(manager).nodes(), e, env)
                    }
            },
            Err(_) => true,
        },
{
    proof {
        reveal(adds_decision);
    }
    if t == e {
        return Ok(t);
    }
    let tag = t.tag;
    let node = InnerNode { level, t: t.with_tag(EdgeTag::Regular), e: e.xor_tag(tag) };
    match manager.get_or_insert(node) {
        Ok(h) => {
            let r = h.xor_tag(tag);
            proof {
                let a = old(manager).nodes();
                let b = manager.nodes();
                lemma_extends(a, b, manager.levels());
                lemma_cofactors(b, manager.levels(), r);
                assert(then_of(b, r) == t);
                assert(else_of(b, r) == e);
            }
            Ok(r)
        },
        Err(err) => Err(err),
    }
}

/// The nodes of both operands, or the result of an operation on trivial operands.
pub enum NodesOrDone {
    /// Both operands are inner nodes.
    Nodes(InnerNode, InnerNode),
    /// The result.
    Done(Edge),
}

/// What a treatment of trivial operands guarantees.
pub open spec fn nodes_or_done(
    nodes: Seq<InnerNode>,
    op: BCDDOp,
    f: Edge,
    g: Edge,
    r: NodesOrDone,
) -> bool {
    match r {
        NodesOrDone::Nodes(fnode, gnode) => {
            &&& is_inner(f)
            &&& is_inner(g)
            &&& f.node != g.node
            &&& fnode == node_of(nodes, f)
            &&& gnode == node_of(nodes, g)
        },
        NodesOrDone::Done(h) => {
            &&& is_bin(nodes, op, f, g, h)
            &&& level_of(nodes, h) >= level_of(nodes, f) || level_of(nodes, h) >= level_of(nodes, g)
        },
    }
}

/// The conjunction of `f` and `g`, if it is trivial.
pub(crate) fn terminal_and(manager: &Manager, f: Edge, g: Edge) -> (r: NodesOrDone)
    requires
        manager.wf(),
        manager.has(f),
        manager.has(g),
    ensures
        nodes_or_done(manager.nodes(), BCDDOp::And, f, g, r),
        r is Done <==> !is_inner(f) || !is_inner(g) || f.node == g.node,
{
    if f.node == g.node {
        if f.tag == g.tag {
            return NodesOrDone::Done(g);
        }
        let r = get_terminal(false);
        assert forall|env: Set<LevelNo>| !(#[trigger] eval(manager.nodes(), f, env) && eval(
            manager.nodes(),
            g,
            env,
        )) by {
            lemma_eval_flipped(manager.nodes(), f, true, env);
            assert(g == f.flipped(true));
        }
        return NodesOrDone::Done(r);
    }
    match (manager.get_node(f), manager.get_node(g)) {
        (Node::Inner(fnode), Node::Inner(gnode)) => NodesOrDone::Nodes(fnode, gnode),
        (Node::Inner(_), Node::Terminal) => NodesOrDone::Done(
            if g.tag == EdgeTag::Regular {
                f
            } else {
                get_terminal(false)
            },
        ),
        (Node::Terminal, _) => NodesOrDone::Done(
            if f.tag == EdgeTag::Regular {
                g
            } else {
                get_terminal(false)
            },
        ),
    }
}

/// The exclusive disjunction of `f` and `g`, if it is trivial.
pub(crate) fn terminal_xor(manager: &Manager, f: Edge, g: Edge) -> (r: NodesOrDone)
    requires
        manager.wf(),
        manager.has(f),
        manager.has(g),
    ensures
        nodes_or_done(manager.nodes(), BCDDOp::Xor, f, g, r),
        r is Done <==> !is_inner(f) || !is_inner(g) || f.node == g.node,
{
    proof {
        assert forall|env: Set<LevelNo>| #[trigger]
            eval(manager.nodes(), f.flipped(true), env) == !eval(manager.nodes(), f, env) by {
            lemma_eval_flipped(manager.nodes(), f, true, env);
        }
        assert forall|env: Set<LevelNo>| #[trigger]
            eval(manager.nodes(), g.flipped(true), env) == !eval(manager.nodes(), g, env) by {
            lemma_eval_flipped(manager.nodes(), g, true, env);
        }
    }
    if f.node == g.node {
        let r = get_terminal(f.tag != g.tag);
        assert(f.tag != g.tag ==> g == f.flipped(true));
        return NodesOrDone::Done(r);
    }
    match (manager.get_node(f), manager.get_node(g)) {
        (Node::Inner(fnode), Node::Inner(gnode)) => NodesOrDone::Nodes(fnode, gnode),
        (Node::Inner(_), Node::Terminal) => NodesOrDone::Done(
            if g.tag == EdgeTag::Complemented {
                f
            } else {
                not(f)
            },
        ),
        (Node::Terminal, _) => NodesOrDone::Done(
            if f.tag == EdgeTag::Complemented {
                g
            } else {
                not(g)
            },
        ),
    }
}

/// Removes the variables above the level `until` from the set `set`.
pub(crate) fn set_pop(manager: &Manager, set: Edge, until: LevelNo) -> (r: Edge)
    requires
        manager.wf(),
        manager.has(set),
    ensures
        manager.has(r),
        r == popped(manager.nodes(), set, until as int),
        level_of(manager.nodes(), r) >= until,
        exists|k: int|
            #![trigger var_set(manager.nodes(), set).skip(k)]
            {
                &&& 0 <= k <= var_set(manager.nodes(), set).len()
                &&& var_set(manager.nodes(), r) == var_set(manager.nodes(), set).skip(k)
                &&& forall|i: int| 0 <= i < k ==> #[trigger] var_set(manager.nodes(), set)[i] < until
            },
    decreases set.node,
{
    let ghost vs = var_set(manager.nodes(), set);
    match manager.get_node(set) {
        Node::Inner(n) => {
            if n.level >= until {
                proof {
                    assert(vs.skip(0) =~= vs);
                }
                set
            } else {
                proof {
                    lemma_cofactors(manager.nodes(), manager.levels(), set);
                    lemma_var_set_below(manager.nodes(), manager.levels(), set);
                }
                let r = set_pop(manager, n.t, until);
                proof {
                    let ws = var_set(manager.nodes(), n.t);
                    let k: int = choose|k: int|
                        #![trigger ws.skip(k)]
                        {
                            &&& 0 <= k <= ws.len()
                            &&& var_set(manager.nodes(), r) == ws.skip(k)
                            &&& forall|i: int| 0 <= i < k ==> #[trigger] ws[i] < until
                        };
                    assert(ws.skip(k) =~= vs.skip(k + 1));
                    assert forall|i: int| 0 <= i < k + 1 implies #[trigger] vs[i] < until by {
                        if i > 0 {
                            assert(vs[i] == ws[i - 1]);
                        }
                    }
                }
                r
            }
        },
        Node::Terminal => {
            proof {
                assert(vs.skip(0) =~= vs);
            }
            set
        },
    }
}

} // verus!
