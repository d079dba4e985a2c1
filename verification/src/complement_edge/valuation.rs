//! Evaluation, satisfying assignments, and their number.

use super::edge::{Edge, EdgeTag, InnerNode, LevelNo, Node};
use super::manager::Manager;
use super::semantics::{
    assign, else_of, eval, extends, is_diagram, is_inner, lemma_cofactors, level_of, node_of,
    node_ok, then_of, valid,
};
use super::{collect_cofactors, get_terminal};
use std::collections::HashMap;
use vstd::arithmetic::power2::{
    lemma2_to64, lemma2_to64_rest, lemma_pow2_adds, lemma_pow2_strictly_increases,
    lemma_pow2_unfold, pow2,
};
use vstd::prelude::*;

verus! {

// ---------------------------------------------------------------------------------------------
// Evaluation

/// The assignment given by a list of variables and values. A variable that is not listed is false;
/// if a variable is listed more than once, the last value counts.
pub open spec fn args_env(nodes: Seq<InnerNode>, args: Seq<(Edge, bool)>) -> Set<LevelNo>
    decreases args.len(),
{
    if args.len() == 0 {
        Set::empty()
    } else {
        assign(
            args_env(nodes, args.drop_last()),
            node_of(nodes, args.last().0).level,
            args.last().1,
        )
    }
}

/// Every edge of the list points to an inner node of the diagram.
pub open spec fn args_valid(nodes: Seq<InnerNode>, args: Seq<(Edge, bool)>) -> bool {
    forall|k: int|
        0 <= k < args.len() ==> valid(nodes, (#[trigger] args[k]).0) && is_inner(args[k].0)
}

/// `values` lists, level by level, the values of the assignment `env`.
spec fn lists(values: Seq<bool>, env: Set<LevelNo>) -> bool {
    forall|l: LevelNo| #[trigger]
        env.contains(l) == (l < values.len() && values[l as int])
}

/// Evaluates `edge` under the assignment given by `args`.
pub(crate) fn eval_edge(manager: &Manager, edge: Edge, args: &[(Edge, bool)]) -> (r: bool)
    requires
        manager.wf(),
        manager.has(edge),
        args_valid(manager.nodes(), args@),
    ensures
        r == manager.eval(edge, args_env(manager.nodes(), args@)),
{
    let ghost nodes = manager.nodes();
    let ghost levels = manager.levels();
    let mut values: Vec<bool> = Vec::new();
    let n: LevelNo = manager.num_levels();
    let mut k: LevelNo = 0;
    while k < n
        invariant
            k <= n,
            values@.len() == k,
            forall|i: int| 0 <= i < k ==> !(#[trigger] values@[i]),
        decreases n - k,
    {
        values.push(false);
        k += 1;
    }

    let mut i: usize = 0;
    assert(args@.take(0) =~= Seq::<(Edge, bool)>::empty());
    while i < args.len()
        invariant
            manager.wf(),
            nodes == manager.nodes(),
            levels == manager.levels(),
            args_valid(nodes, args@),
            i <= args@.len(),
            values@.len() == levels,
            lists(values@, args_env(nodes, args@.take(i as int))),
        decreases args@.len() - i,
    {
        let (var, value) = args[i];
        assert(args@[i as int] == (var, value));
        match manager.get_node(var) {
            Node::Inner(node) => {
                proof {
                    lemma_cofactors(nodes, levels, var);
                    let more = args@.take(i + 1);
                    assert(more.drop_last() =~= args@.take(i as int));
                    assert(more.last() == (var, value));
                }
                values.set(node.level as usize, value);
            },
            Node::Terminal => {},
        }
        i += 1;
    }
    assert(args@.take(i as int) =~= args@);

    let ghost env = args_env(nodes, args@);
    let mut cur = edge;
    loop
        invariant
            manager.wf(),
            nodes == manager.nodes(),
            levels == manager.levels(),
            manager.has(cur),
            values@.len() == levels,
            lists(values@, env),
            eval(nodes, cur, env) == eval(nodes, edge, env),
        ensures
            !is_inner(cur),
            eval(nodes, cur, env) == eval(nodes, edge, env),
        decreases cur.node,
    {
        match manager.get_node(cur) {
            Node::Inner(node) => {
                proof {
                    lemma_cofactors(nodes, levels, cur);
                    assert(env.contains(node.level) == values@[node.level as int]);
                }
                let (t, e) = collect_cofactors(cur.tag, node);
                cur =
                if values[node.level as usize] {
                    t
                } else {
                    e
                };
            },
            Node::Terminal => break,
        }
    }
    cur.tag == EdgeTag::Regular
}

// ---------------------------------------------------------------------------------------------
// Satisfying assignments

/// The value chosen for the top variable of `e`: one for which the function can still become true.
/// If there are two such values, it is up to `choice`.
pub open spec fn chosen<C: FnMut(&Manager, &Edge) -> bool>(
    manager: &Manager,
    e: Edge,
    choice: C,
    value: bool,
) -> bool {
    if then_of(manager.nodes(), e) == Edge::constant(false) {
        !value
    } else if else_of(manager.nodes(), e) == Edge::constant(false) {
        value
    } else {
        call_ensures(choice, (manager, &e), value)
    }
}

/// From the level `from` on, `cube` lists the values chosen along a path from `e` to the terminal;
/// variables that are not on the path have no value.
pub open spec fn picked<C: FnMut(&Manager, &Edge) -> bool>(
    manager: &Manager,
    e: Edge,
    choice: C,
    cube: Seq<Option<bool>>,
    from: int,
) -> bool
    decreases e.node,
{
    if !is_inner(e) {
        forall|l: int| from <= l < cube.len() ==> #[trigger] cube[l] is None
    } else {
        let level = level_of(manager.nodes(), e);
        let next = if cube[level] == Some(true) {
            then_of(manager.nodes(), e)
        } else {
            else_of(manager.nodes(), e)
        };
        &&& from <= level < cube.len()
        &&& forall|l: int| from <= l < level ==> #[trigger] cube[l] is None
        &&& cube[level] matches Some(value) && chosen(manager, e, choice, value)
        &&& next.node < e.node
        &&& picked(manager, next, choice, cube, level + 1)
    }
}

/// The assignment gives every variable the value that `cube` lists for it, if any.
pub open spec fn agrees(cube: Seq<Option<bool>>, env: Set<LevelNo>) -> bool {
    forall|l: LevelNo|
        l < cube.len() && (#[trigger] cube[l as int]) is Some ==> cube[l as int] == Some(
            env.contains(l),
        )
}

/// Picks a path from `e` to the terminal for "true", and fills in the values along it.
fn pick_cube<C: FnMut(&Manager, &Edge) -> bool>(
    manager: &Manager,
    e: Edge,
    cube: &mut Vec<Option<bool>>,
    choice: &mut C,
    Ghost(from): Ghost<int>,
)
    requires
        manager.wf(),
        manager.has(e),
        e != Edge::constant(false),
        old(cube)@.len() == manager.levels(),
        0 <= from <= level_of(manager.nodes(), e),
        forall|l: int| from <= l < old(cube)@.len() ==> #[trigger] old(cube)@[l] is None,
        forall|x: Edge| #[trigger] manager.has(x) ==> call_requires(*old(choice), (manager, &x)),
    ensures
        final(cube)@.len() == old(cube)@.len(),
        forall|l: int|
            0 <= l < from && l < old(cube)@.len() ==> #[trigger] final(cube)@[l] == old(cube)@[l],
        picked(manager, e, *old(choice), final(cube)@, from),
    decreases e.node,
{
    let ghost nodes = manager.nodes();
    match manager.get_node(e) {
        Node::Inner(node) => {
            proof {
                lemma_cofactors(nodes, manager.levels(), e);
            }
            let (t, el) = collect_cofactors(e.tag, node);
            let value: bool = if t == get_terminal(false) {
                false
            } else if el == get_terminal(false) {
                true
            } else {
                choice(manager, &e)
            };
            let next = if value {
                t
            } else {
                el
            };
            cube.set(node.level as usize, Some(value));
            pick_cube(manager, next, cube, choice, Ghost(node.level + 1));
        },
        Node::Terminal => {},
    }
}

/// Picks a conjunction of literals that implies `edge`: `None` if there is none, else the values of
/// the variables in the order of `order`, or by level if `order` is empty.
pub(crate) fn pick_cube_edge<C: FnMut(&Manager, &Edge) -> bool>(
    manager: &Manager,
    edge: Edge,
    order: &[Edge],
    mut choice: C,
) -> (r: Option<Vec<Option<bool>>>)
    requires
        manager.wf(),
        manager.has(edge),
        order@.len() == 0 || order@.len() == manager.levels(),
        forall|k: int|
            0 <= k < order@.len() ==> manager.has(#[trigger] order@[k]) && is_inner(order@[k]),
        forall|x: Edge| #[trigger] manager.has(x) ==> call_requires(choice, (manager, &x)),
    ensures
        r is None <==> edge == Edge::constant(false),
        r is Some ==> may_pick(manager, edge, order@, choice, r->0@),
{
    let ghost nodes = manager.nodes();
    if edge == get_terminal(false) {
        return None;
    }
    let n: LevelNo = manager.num_levels();
    let mut cube: Vec<Option<bool>> = Vec::new();
    let mut k: LevelNo = 0;
    while k < n
        invariant
            k <= n,
            cube@.len() == k,
            forall|l: int| 0 <= l < k ==> #[trigger] cube@[l] is None,
        decreases n - k,
    {
        cube.push(None);
        k += 1;
    }
    let ghost choice0 = choice;
    pick_cube(manager, edge, &mut cube, &mut choice, Ghost(0));
    if order.len() == 0 {
        assert(is_pick(manager, edge, order@, choice0, cube@, cube@));
        return Some(cube);
    }
    let mut values: Vec<Option<bool>> = Vec::new();
    let mut i: usize = 0;
    while i < order.len()
        invariant
            manager.wf(),
            nodes == manager.nodes(),
            i <= order@.len(),
            cube@.len() == manager.levels(),
            values@.len() == i,
            forall|k: int|
                0 <= k < order@.len() ==> manager.has(#[trigger] order@[k]) && is_inner(order@[k]),
            forall|k: int|
                0 <= k < i ==> #[trigger] values@[k] == cube@[level_of(nodes, order@[k])],
        decreases order@.len() - i,
    {
        let var = order[i];
        proof {
            assert(manager.has(order@[i as int]));
            lemma_cofactors(nodes, manager.levels(), var);
        }
        match manager.get_node(var) {
            Node::Inner(node) => {
                values.push(cube[node.level as usize]);
            },
            Node::Terminal => {
                values.push(None);
            },
        }
        i += 1;
    }
    assert(is_pick(manager, edge, order@, choice0, cube@, values@));
    Some(values)
}

/// `cube` lists, by level, the values chosen along a path from `edge` to the terminal, and `values`
/// lists them in the order of `order`, or by level if `order` is empty.
pub open spec fn is_pick<C: FnMut(&Manager, &Edge) -> bool>(
    manager: &Manager,
    edge: Edge,
    order: Seq<Edge>,
    choice: C,
    cube: Seq<Option<bool>>,
    values: Seq<Option<bool>>,
) -> bool {
    &&& cube.len() == manager.levels()
    &&& picked(manager, edge, choice, cube, 0)
    &&& if order.len() == 0 {
        values == cube
    } else {
        &&& values.len() == order.len()
        &&& forall|k: int|
            0 <= k < order.len() ==> #[trigger] values[k] == cube[level_of(
                manager.nodes(),
                order[k],
            )]
    }
}

/// `values` lists, in the order of `order`, values chosen along a path from `edge` to the terminal.
pub open spec fn may_pick<C: FnMut(&Manager, &Edge) -> bool>(
    manager: &Manager,
    edge: Edge,
    order: Seq<Edge>,
    choice: C,
    values: Seq<Option<bool>>,
) -> bool {
    exists|cube: Seq<Option<bool>>| #[trigger]
        is_pick(manager, edge, order, choice, cube, values)
}

/// Every assignment that agrees with the cube that was picked satisfies the function.
pub proof fn lemma_picked_satisfies<C: FnMut(&Manager, &Edge) -> bool>(
    manager: &Manager,
    e: Edge,
    choice: C,
    cube: Seq<Option<bool>>,
    from: int,
    env: Set<LevelNo>,
)
    requires
        manager.wf(),
        manager.has(e),
        e != Edge::constant(false),
        0 <= from,
        picked(manager, e, choice, cube, from),
        agrees(cube, env),
    ensures
        manager.eval(e, env),
    decreases e.node,
{
    if is_inner(e) {
        let nodes = manager.nodes();
        lemma_cofactors(nodes, manager.levels(), e);
        let level = node_of(nodes, e).level;
        let next = if cube[level as int] == Some(true) {
            then_of(nodes, e)
        } else {
            else_of(nodes, e)
        };
        assert(cube[level as int] == Some(env.contains(level)));
        lemma_picked_satisfies(manager, next, choice, cube, level + 1, env);
    }
}

// ---------------------------------------------------------------------------------------------
// Number of satisfying assignments

/// The number of decisions on the longest path from `e` to the terminal.
pub open spec fn depth(nodes: Seq<InnerNode>, e: Edge) -> nat
    decreases e.node,
{
    if e.node == 0 || e.node > nodes.len() {
        0
    } else {
        let n = nodes[e.node - 1];
        let t = if n.t.node < e.node {
            depth(nodes, n.t)
        } else {
            0
        };
        let el = if n.e.node < e.node {
            depth(nodes, n.e)
        } else {
            0
        };
        1 + if t > el {
            t
        } else {
            el
        }
    }
}

/// The number of assignments to `vars` variables, among them those that `e` decides on, that
/// satisfy `e`.
pub open spec fn sat_count(nodes: Seq<InnerNode>, e: Edge, vars: nat) -> nat
    decreases e.node,
{
    if e.node == 0 || e.node > nodes.len() {
        if e.neg() {
            0
        } else {
            pow2(vars)
        }
    } else {
        let t = then_of(nodes, e);
        let el = else_of(nodes, e);
        if vars > 0 && t.node < e.node && el.node < e.node {
            sat_count(nodes, t, (vars - 1) as nat) + sat_count(nodes, el, (vars - 1) as nat)
        } else {
            0
        }
    }
}

/// The depth does not depend on the tag.
proof fn lemma_depth_tag(nodes: Seq<InnerNode>, a: Edge, b: Edge)
    requires
        a.node == b.node,
    ensures
        depth(nodes, a) == depth(nodes, b),
{
}

/// The depth of the cofactors.
proof fn lemma_depth(nodes: Seq<InnerNode>, levels: LevelNo, e: Edge)
    requires
        is_diagram(nodes, levels),
        valid(nodes, e),
        is_inner(e),
    ensures
        depth(nodes, e) >= 1,
        depth(nodes, then_of(nodes, e)) <= depth(nodes, e) - 1,
        depth(nodes, else_of(nodes, e)) <= depth(nodes, e) - 1,
        depth(nodes, then_of(nodes, e)) == depth(nodes, node_of(nodes, e).t),
        depth(nodes, else_of(nodes, e)) == depth(nodes, node_of(nodes, e).e),
{
    assert(node_ok(nodes, levels, e.node - 1));
    lemma_depth_tag(nodes, then_of(nodes, e), node_of(nodes, e).t);
    lemma_depth_tag(nodes, else_of(nodes, e), node_of(nodes, e).e);
}

/// What an assignment does not satisfy, it satisfies negated.
pub proof fn lemma_sat_count_negation(
    nodes: Seq<InnerNode>,
    levels: LevelNo,
    e: Edge,
    vars: nat,
)
    requires
        is_diagram(nodes, levels),
        valid(nodes, e),
        depth(nodes, e) <= vars,
    ensures
        sat_count(nodes, e, vars) + sat_count(nodes, e.flipped(true), vars) == pow2(vars),
    decreases e.node,
{
    if is_inner(e) {
        let f = e.flipped(true);
        lemma_cofactors(nodes, levels, e);
        lemma_cofactors(nodes, levels, f);
        lemma_depth(nodes, levels, e);
        assert(then_of(nodes, f) == then_of(nodes, e).flipped(true));
        assert(else_of(nodes, f) == else_of(nodes, e).flipped(true));
        let n = (vars - 1) as nat;
        lemma_sat_count_negation(nodes, levels, then_of(nodes, e), n);
        lemma_sat_count_negation(nodes, levels, else_of(nodes, e), n);
        lemma_pow2_unfold(vars);
    }
}

/// Each further variable doubles the number of satisfying assignments.
pub proof fn lemma_sat_count_double(nodes: Seq<InnerNode>, levels: LevelNo, e: Edge, vars: nat)
    requires
        is_diagram(nodes, levels),
        valid(nodes, e),
        depth(nodes, e) <= vars,
    ensures
        sat_count(nodes, e, vars + 1) == 2 * sat_count(nodes, e, vars),
    decreases e.node,
{
    if is_inner(e) {
        lemma_cofactors(nodes, levels, e);
        lemma_depth(nodes, levels, e);
        let n = (vars - 1) as nat;
        lemma_sat_count_double(nodes, levels, then_of(nodes, e), n);
        lemma_sat_count_double(nodes, levels, else_of(nodes, e), n);
        assert(n + 1 == vars);
    } else {
        lemma_pow2_unfold(vars + 1);
    }
}

/// Adding nodes does not change the number of satisfying assignments.
pub proof fn lemma_sat_count_extends(
    a: Seq<InnerNode>,
    b: Seq<InnerNode>,
    levels: LevelNo,
    e: Edge,
    vars: nat,
)
    requires
        is_diagram(a, levels),
        extends(a, b),
        valid(a, e),
    ensures
        sat_count(b, e, vars) == sat_count(a, e, vars),
        depth(b, e) == depth(a, e),
    decreases e.node,
{
    if is_inner(e) {
        lemma_cofactors(a, levels, e);
        lemma_depth(a, levels, e);
        assert(node_ok(a, levels, e.node - 1));
        assert(b[e.node - 1] == a[e.node - 1]);
        let n = if vars > 0 {
            (vars - 1) as nat
        } else {
            0
        };
        lemma_sat_count_extends(a, b, levels, then_of(a, e), n);
        lemma_sat_count_extends(a, b, levels, else_of(a, e), n);
        lemma_sat_count_extends(a, b, levels, a[e.node - 1].t, n);
        lemma_sat_count_extends(a, b, levels, a[e.node - 1].e, n);
    }
}

/// Numbers of satisfying assignments that were computed before, for the functions of inner nodes.
pub struct SatCountCache {
    vars: LevelNo,
    map: HashMap<u32, u128>,
}

impl SatCountCache {
    /// The number of variables that the assignments are counted for.
    pub closed spec fn vars(&self) -> LevelNo {
        self.vars
    }

    /// The numbers, by node.
    pub closed spec fn view(&self) -> Map<u32, u128> {
        self.map@
    }

    /// Every number is that of its node in the diagram.
    pub open spec fn is_for(&self, nodes: Seq<InnerNode>) -> bool {
        forall|id: u32| #[trigger]
            self@.contains_key(id) ==> {
                let e = Edge { node: id, tag: EdgeTag::Regular };
                valid(nodes, e) && self@[id] == sat_count(nodes, e, self.vars() as nat)
            }
    }

    /// The numbers stay those of their nodes when nodes are added.
    pub proof fn lemma_extends(&self, a: Seq<InnerNode>, b: Seq<InnerNode>, levels: LevelNo)
        requires
            is_diagram(a, levels),
            extends(a, b),
            self.is_for(a),
        ensures
            self.is_for(b),
    {
        assert forall|id: u32| #[trigger] self@.contains_key(id) implies ({
            let e = Edge { node: id, tag: EdgeTag::Regular };
            valid(b, e) && self@[id] == sat_count(b, e, self.vars() as nat)
        }) by {
            let e = Edge { node: id, tag: EdgeTag::Regular };
            lemma_sat_count_extends(a, b, levels, e, self.vars() as nat);
        }
    }

    /// Creates a cache without entries.
    pub fn new(vars: LevelNo) -> (cache: Self)
        ensures
            cache.vars() == vars,
            cache@ == Map::<u32, u128>::empty(),
            forall|nodes: Seq<InnerNode>| #[trigger] cache.is_for(nodes),
    {
        broadcast use vstd::std_specs::hash::group_hash_axioms;

        SatCountCache { vars, map: HashMap::new() }
    }

    /// Removes all entries if they are for another number of variables than `vars`.
    pub fn clear_if_invalid(&mut self, vars: LevelNo)
        ensures
            final(self).vars() == vars,
            final(self)@ == if old(self).vars() == vars {
                old(self)@
            } else {
                Map::<u32, u128>::empty()
            },
    {
        broadcast use vstd::std_specs::hash::group_hash_axioms;

        if self.vars != vars {
            self.vars = vars;
            self.map.clear();
        }
    }

    fn get(&self, id: u32) -> (n: Option<u128>)
        ensures
            n == if self@.contains_key(id) {
                Some(self@[id])
            } else {
                None
            },
    {
        broadcast use vstd::std_specs::hash::group_hash_axioms;

        match self.map.get(&id) {
            Some(n) => Some(*n),
            None => None,
        }
    }

    fn insert(&mut self, id: u32, n: u128)
        ensures
            final(self).vars() == old(self).vars(),
            final(self)@ == old(self)@.insert(id, n),
    {
        broadcast use vstd::std_specs::hash::group_hash_axioms;

        let _ = self.map.insert(id, n);
    }
}

/// Counts the assignments that satisfy `e`, where `total` is the number of all assignments.
fn sat_count_inner(
    manager: &Manager,
    e: Edge,
    vars: LevelNo,
    total: u128,
    cache: &mut SatCountCache,
) -> (n: u128)
    requires
        manager.wf(),
        manager.has(e),
        depth(manager.nodes(), e) <= vars,
        total == pow2(vars as nat),
        old(cache).is_for(manager.nodes()),
        old(cache).vars() == vars,
    ensures
        n == sat_count(manager.nodes(), e, vars as nat),
        n <= total,
        final(cache).is_for(manager.nodes()),
        final(cache).vars() == vars,
    decreases e.node,
{
    let ghost nodes = manager.nodes();
    let ghost levels = manager.levels();
    let ghost v = vars as nat;
    let ghost regular = Edge { node: e.node, tag: EdgeTag::Regular };
    proof {
        lemma_sat_count_negation(nodes, levels, regular, v);
        assert(depth(nodes, regular) == depth(nodes, e));
        assert(regular.flipped(true) == Edge { node: e.node, tag: EdgeTag::Complemented });
    }
    let n: u128 = match manager.get_node(e) {
        Node::Terminal => total,
        Node::Inner(node) => {
            match cache.get(e.node) {
                Some(n) => n,
                None => {
                    proof {
                        lemma_cofactors(nodes, levels, regular);
                        lemma_depth(nodes, levels, regular);
                        let w = (v - 1) as nat;
                        lemma_sat_count_double(nodes, levels, node.t, w);
                        lemma_sat_count_double(nodes, levels, node.e, w);
                        assert(then_of(nodes, regular) == node.t);
                        assert(else_of(nodes, regular) == node.e);
                        assert(w + 1 == v);
                    }
                    let t: u128 = sat_count_inner(manager, node.t, vars, total, cache);
                    let el: u128 = sat_count_inner(manager, node.e, vars, total, cache);
                    let n: u128 = t / 2 + el / 2;
                    cache.insert(e.node, n);
                    n
                },
            }
        },
    };
    if e.tag == EdgeTag::Complemented {
        total - n
    } else {
        n
    }
}

/// Counts the assignments to `vars` variables that satisfy `edge`.
pub(crate) fn sat_count_edge(
    manager: &Manager,
    edge: Edge,
    vars: LevelNo,
    cache: &mut SatCountCache,
) -> (n: u128)
    requires
        manager.wf(),
        manager.has(edge),
        depth(manager.nodes(), edge) <= vars <= 127,
        old(cache).is_for(manager.nodes()),
    ensures
        n == sat_count(manager.nodes(), edge, vars as nat),
        final(cache).is_for(manager.nodes()),
        final(cache).vars() == vars,
{
    cache.clear_if_invalid(vars);
    let mut total: u128 = 1;
    let mut k: LevelNo = 0;
    proof {
        lemma2_to64();
    }
    while k < vars
        invariant
            k <= vars <= 127,
            total == pow2(k as nat),
        decreases vars - k,
    {
        proof {
            lemma_pow2_unfold((k + 1) as nat);
            lemma_pow2_bound((k + 1) as nat);
        }
        total = total * 2;
        k += 1;
    }
    sat_count_inner(manager, edge, vars, total, cache)
}

/// The powers of two that are counted with fit their type.
proof fn lemma_pow2_bound(n: nat)
    requires
        n <= 127,
    ensures
        pow2(n) <= 0x8000_0000_0000_0000_0000_0000_0000_0000,
{
    lemma2_to64();
    lemma2_to64_rest();
    lemma_pow2_adds(64, 63);
    assert(pow2(64) * pow2(63) == 0x8000_0000_0000_0000_0000_0000_0000_0000) by (nonlinear_arith)
        requires
            pow2(64) == 0x1_0000_0000_0000_0000,
            pow2(63) == 0x8000_0000_0000_0000,
    ;
    if n < 127 {
        lemma_pow2_strictly_increases(n, 127);
    }
}

} // verus!
