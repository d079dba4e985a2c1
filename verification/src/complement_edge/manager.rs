//! The store that owns the nodes of a diagram.

use super::edge::{BCDDOp, Edge, EdgeTag, InnerNode, LevelNo, Node};
use super::operators::{
    is_bin, is_ite, is_quantified, is_restricted, is_substituted, lemma_cube_extends,
    lemma_quantify_extends, lemma_subst_extends, lemma_var_set_extends, popped, quantify,
    represents, subst_valid, var_set,
};
use super::semantics::{
    eval, extends, is_diagram, is_inner, lemma_extends, level_of, node_of, node_ok, valid,
};
use crate::util::apply_cache::{ApplyCache, CacheKey};
use crate::util::unique_table::UniqueTable;
use crate::util::{AllocResult, OutOfMemory};
use vstd::prelude::*;

verus! {

/// The largest number of inner nodes that a manager can hold.
pub const MAX_NODES: u32 = 0x7fff_ffff;

/// An operator with its operands. Operands that the operator does not have are "true" or 0.
#[derive(Clone, Copy, PartialEq, Eq, Structural, Debug, Hash)]
pub struct BCDDKey {
    /// The operator.
    pub op: BCDDOp,
    /// The first operand.
    pub f: Edge,
    /// The second operand.
    pub g: Edge,
    /// The third operand.
    pub h: Edge,
    /// The numeric operand.
    pub num: u32,
}

impl CacheKey for BCDDKey {
    closed spec fn slot_number(&self) -> u64 {
        (edge_code(self.f) as u64 * 12582917 + edge_code(self.g) as u64 * 4256249 + edge_code(
            self.h,
        ) as u64 * 741457 + self.num as u64 * 1618033 + op_code(self.op) as u64) as u64
    }

    fn hash(&self) -> (h: u64) {
        let f: u64 = self.f.code() as u64;
        let g: u64 = self.g.code() as u64;
        let h: u64 = self.h.code() as u64;
        let num: u64 = self.num as u64;
        let op: u64 = self.op_number() as u64;
        f * 12582917 + g * 4256249 + h * 741457 + num * 1618033 + op
    }

    fn same(&self, other: &Self) -> (b: bool) {
        *self == *other
    }
}

/// A number that identifies the operator.
spec fn op_code(op: BCDDOp) -> u32 {
    match op {
        BCDDOp::And => 0,
        BCDDOp::Xor => 1,
        BCDDOp::Ite => 2,
        BCDDOp::Substitute => 3,
        BCDDOp::Restrict => 4,
        BCDDOp::Forall => 5,
        BCDDOp::Exist => 6,
        BCDDOp::Unique => 7,
    }
}

impl BCDDKey {
    fn op_number(&self) -> (n: u32)
        ensures
            n == op_code(self.op),
    {
        match self.op {
            BCDDOp::And => 0,
            BCDDOp::Xor => 1,
            BCDDOp::Ite => 2,
            BCDDOp::Substitute => 3,
            BCDDOp::Restrict => 4,
            BCDDOp::Forall => 5,
            BCDDOp::Exist => 6,
            BCDDOp::Unique => 7,
        }
    }
}

/// An edge as one number; two edges of a diagram have different numbers.
spec fn edge_code(e: Edge) -> u32 {
    if e.node > MAX_NODES {
        0
    } else if e.neg() {
        (2 * e.node + 1) as u32
    } else {
        (2 * e.node) as u32
    }
}

impl Edge {
    /// Returns the number of this edge.
    fn code(self) -> (c: u32)
        ensures
            c == edge_code(self),
    {
        if self.node > MAX_NODES {
            0
        } else if self.tag == EdgeTag::Complemented {
            2 * self.node + 1
        } else {
            2 * self.node
        }
    }
}

/// What the cached result `r` of `k` is known to be.
pub open spec fn entry_ok(
    nodes: Seq<InnerNode>,
    substitutions: Map<u32, Map<LevelNo, Edge>>,
    k: BCDDKey,
    r: Edge,
) -> bool {
    &&& valid(nodes, k.f)
    &&& valid(nodes, k.g)
    &&& valid(nodes, k.h)
    &&& valid(nodes, r)
    &&& match k.op {
        BCDDOp::And | BCDDOp::Xor => {
            &&& level_of(nodes, r) >= level_of(nodes, k.f) || level_of(nodes, r) >= level_of(
                nodes,
                k.g,
            )
            &&& is_bin(nodes, k.op, k.f, k.g, r)
        },
        BCDDOp::Ite => {
            &&& level_of(nodes, r) >= level_of(nodes, k.f) || level_of(nodes, r) >= level_of(
                nodes,
                k.g,
            ) || level_of(nodes, r) >= level_of(nodes, k.h)
            &&& is_ite(nodes, k.f, k.g, k.h, r)
        },
        BCDDOp::Substitute => {
            &&& substitutions.contains_key(k.num)
            &&& is_substituted(nodes, substitutions[k.num], k.f, r)
        },
        BCDDOp::Restrict => {
            &&& level_of(nodes, r) >= level_of(nodes, k.f)
            &&& is_restricted(nodes, k.f, k.g, r)
        },
        _ => {
            &&& level_of(nodes, r) >= level_of(nodes, k.f)
            &&& is_quantified(nodes, k.op, k.f, k.g, r)
        },
    }
}

/// Every cached result is what its operator computes.
pub open spec fn cache_ok(
    nodes: Seq<InnerNode>,
    substitutions: Map<u32, Map<LevelNo, Edge>>,
    cache: Map<BCDDKey, Edge>,
) -> bool {
    forall|k: BCDDKey| #[trigger]
        cache.contains_key(k) ==> entry_ok(nodes, substitutions, k, cache[k])
}

/// The node for the variable at `level`.
pub open spec fn variable_node(level: LevelNo) -> InnerNode {
    InnerNode { level, t: Edge::constant(true), e: Edge::constant(false) }
}

/// There is a node for every variable.
pub open spec fn has_variables(nodes: Seq<InnerNode>, levels: LevelNo) -> bool {
    forall|level: LevelNo| level < levels ==> nodes.contains(#[trigger] variable_node(level))
}

/// The nodes for the variables stay when nodes are added.
proof fn lemma_variables_extends(a: Seq<InnerNode>, b: Seq<InnerNode>, levels: LevelNo)
    requires
        extends(a, b),
        has_variables(a, levels),
    ensures
        has_variables(b, levels),
{
    assert forall|level: LevelNo| level < levels implies b.contains(
        #[trigger] variable_node(level),
    ) by {
        let i: int = choose|i: int| 0 <= i < a.len() && a[i] == variable_node(level);
        assert(b[i] == a[i]);
    }
}

/// The store of a diagram, with its unique table and its apply cache.
pub struct Manager {
    nodes: Vec<InnerNode>,
    unique: UniqueTable,
    cache: ApplyCache<BCDDKey, Edge>,
    num_levels: LevelNo,
    capacity: u32,
    num_threads: u32,
    substitutions: Ghost<Map<u32, Map<LevelNo, Edge>>>,
}

impl Manager {
    /// The inner nodes.
    pub closed spec fn nodes(&self) -> Seq<InnerNode> {
        self.nodes@
    }

    /// The number of variables.
    pub closed spec fn levels(&self) -> LevelNo {
        self.num_levels
    }

    /// The number of inner nodes that there is room for.
    pub closed spec fn capacity(&self) -> nat {
        self.capacity as nat
    }

    /// The number of worker threads that the work is split for.
    pub closed spec fn threads(&self) -> u32 {
        self.num_threads
    }

    /// The cached results.
    pub closed spec fn cached(&self) -> Map<BCDDKey, Edge> {
        self.cache@
    }

    /// The substitutions applied so far, by their numbers.
    pub closed spec fn substitutions(&self) -> Map<u32, Map<LevelNo, Edge>> {
        self.substitutions@
    }

    /// There is no room for another node.
    pub open spec fn is_full(&self) -> bool {
        self.nodes().len() >= self.capacity()
    }

    /// The key of a node in the unique table.
    closed spec fn unique_key(n: InnerNode) -> (u32, u32, u32) {
        (n.level, edge_code(n.t), edge_code(n.e))
    }

    /// The unique table maps every node to its number, and nothing else.
    pub closed spec fn tables_ok(&self) -> bool {
        &&& self.cache.wf()
        &&& self.capacity <= MAX_NODES
        &&& forall|i: int|
            0 <= i < self.nodes@.len() ==> self.unique@.contains_key(
                Self::unique_key(#[trigger] self.nodes@[i]),
            ) && self.unique@[Self::unique_key(self.nodes@[i])] == i + 1
        &&& forall|k: (u32, u32, u32)| #[trigger]
            self.unique@.contains_key(k) ==> 1 <= self.unique@[k] <= self.nodes@.len()
                && Self::unique_key(self.nodes@[self.unique@[k] - 1]) == k
    }

    /// The manager is in a consistent state.
    pub open spec fn wf(&self) -> bool {
        &&& self.store_ok()
        &&& has_variables(self.nodes(), self.levels())
    }

    /// The nodes form a diagram, and the tables fit to it.
    pub open spec fn store_ok(&self) -> bool {
        &&& is_diagram(self.nodes(), self.levels())
        &&& self.nodes().len() <= self.capacity() <= MAX_NODES
        &&& self.tables_ok()
        &&& cache_ok(self.nodes(), self.substitutions(), self.cached())
        &&& forall|id: u32| #[trigger]
            self.substitutions().contains_key(id) ==> subst_valid(
                self.nodes(),
                self.substitutions()[id],
            )
    }

    /// The edge belongs to this manager.
    pub open spec fn has(&self, e: Edge) -> bool {
        valid(self.nodes(), e)
    }

    /// The truth value of `e` under the assignment `env`.
    pub open spec fn eval(&self, e: Edge, env: Set<LevelNo>) -> bool {
        eval(self.nodes(), e, env)
    }

    /// `later` is this manager after operations that may have added nodes: nothing else that an
    /// edge stands for has changed.
    pub open spec fn grows_to(&self, later: &Manager) -> bool {
        &&& extends(self.nodes(), later.nodes())
        &&& later.levels() == self.levels()
        &&& later.capacity() == self.capacity()
        &&& later.threads() == self.threads()
        &&& later.substitutions() == self.substitutions()
    }

    /// Creates a manager without variables and without inner nodes.
    ///
    /// There is room for `capacity` inner nodes, the apply cache has `cache_size` slots (at least
    /// one), and the work is split for `num_threads` threads.
    pub fn new(capacity: u32, cache_size: usize, num_threads: u32) -> (manager: Manager)
        requires
            capacity <= MAX_NODES,
        ensures
            manager.wf(),
            manager.nodes() == Seq::<InnerNode>::empty(),
            manager.levels() == 0,
            manager.capacity() == capacity,
            manager.threads() == num_threads,
            manager.cached() == Map::<BCDDKey, Edge>::empty(),
            manager.substitutions() == Map::<u32, Map<LevelNo, Edge>>::empty(),
    {
        Manager {
            nodes: Vec::new(),
            unique: UniqueTable::new(),
            cache: ApplyCache::new(cache_size),
            num_levels: 0,
            capacity,
            num_threads,
            substitutions: Ghost(Map::empty()),
        }
    }

    /// Returns the number of variables.
    pub fn num_levels(&self) -> (n: LevelNo)
        ensures
            n == self.levels(),
    {
        self.num_levels
    }

    /// Returns the number of inner nodes.
    pub fn num_inner_nodes(&self) -> (n: usize)
        ensures
            n == self.nodes().len(),
    {
        self.nodes.len()
    }

    /// Returns the number of worker threads that the work is split for.
    pub fn current_num_threads(&self) -> (n: u32)
        ensures
            n == self.threads(),
    {
        self.num_threads
    }

    /// Returns what `e` points to.
    pub fn get_node(&self, e: Edge) -> (node: Node)
        requires
            self.has(e),
        ensures
            node == if is_inner(e) {
                Node::Inner(node_of(self.nodes(), e))
            } else {
                Node::Terminal
            },
    {
        if e.node == 0 {
            Node::Terminal
        } else {
            let i: usize = (e.node - 1) as usize;
            Node::Inner(self.nodes[i])
        }
    }

    /// Returns the edge to `node`, which is added if it does not exist yet.
    pub fn get_or_insert(&mut self, node: InnerNode) -> (r: AllocResult<Edge>)
        requires
            old(self).wf(),
            old(self).has(node.t),
            old(self).has(node.e),
            node.level < old(self).levels(),
            level_of(old(self).nodes(), node.t) > node.level,
            level_of(old(self).nodes(), node.e) > node.level,
            !node.t.neg(),
            node.t != node.e,
        ensures
            final(self).wf(),
            old(self).grows_to(final(self)),
            r is Err <==> old(self).is_full() && !old(self).nodes().contains(node),
            final(self).nodes() == if r is Err || old(self).nodes().contains(node) {
                old(self).nodes()
            } else {
                old(self).nodes().push(node)
            },
            final(self).cached() == old(self).cached(),
            match r {
                Ok(e) => final(self).has(e) && is_inner(e) && !e.neg() && node_of(
                    final(self).nodes(),
                    e,
                ) == node,
                Err(_) => true,
            },
    {
        let r = self.insert_node(node);
        proof {
            lemma_variables_extends(old(self).nodes(), self.nodes(), self.levels());
        }
        r
    }

    /// Returns the edge to `node`, which is added if it does not exist yet. There may be variables
    /// without a node.
    fn insert_node(&mut self, node: InnerNode) -> (r: AllocResult<Edge>)
        requires
            old(self).store_ok(),
            old(self).has(node.t),
            old(self).has(node.e),
            node.level < old(self).levels(),
            level_of(old(self).nodes(), node.t) > node.level,
            level_of(old(self).nodes(), node.e) > node.level,
            !node.t.neg(),
            node.t != node.e,
        ensures
            final(self).store_ok(),
            old(self).grows_to(final(self)),
            r is Err <==> old(self).is_full() && !old(self).nodes().contains(node),
            final(self).nodes() == if r is Err || old(self).nodes().contains(node) {
                old(self).nodes()
            } else {
                old(self).nodes().push(node)
            },
            final(self).cached() == old(self).cached(),
            match r {
                Ok(e) => final(self).has(e) && is_inner(e) && !e.neg() && node_of(
                    final(self).nodes(),
                    e,
                ) == node,
                Err(_) => true,
            },
    {
        let found: Option<u32> = self.unique.get(node.level, node.t.code(), node.e.code());
        let ghost key = Self::unique_key(node);
        match found {
            Some(id) => {
                proof {
                    let n = self.nodes@[id - 1];
                    assert(node_ok(self.nodes(), self.levels(), id - 1));
                    assert(n == node);
                    assert(self.nodes().contains(node));
                }
                return Ok(Edge { node: id, tag: EdgeTag::Regular });
            },
            None => {},
        }
        proof {
            assert forall|i: int| 0 <= i < self.nodes@.len() implies #[trigger] self.nodes@[i]
                != node by {
                assert(self.unique@.contains_key(Self::unique_key(self.nodes@[i])));
            }
        }
        if self.nodes.len() >= self.capacity as usize {
            return Err(OutOfMemory);
        }
        let id: u32 = self.nodes.len() as u32 + 1;
        self.nodes.push(node);
        self.unique.insert(node.level, node.t.code(), node.e.code(), id);
        proof {
            let a = old(self).nodes();
            let b = self.nodes();
            let levels = self.levels();
            lemma_extends(a, b, levels);
            assert forall|i: int| 0 <= i < b.len() implies #[trigger] node_ok(b, levels, i) by {
                if i < a.len() {
                    assert(node_ok(a, levels, i));
                    assert(level_of(b, a[i].t) == level_of(a, a[i].t));
                    assert(level_of(b, a[i].e) == level_of(a, a[i].e));
                } else {
                    assert(level_of(b, node.t) == level_of(a, node.t));
                    assert(level_of(b, node.e) == level_of(a, node.e));
                }
            }
            lemma_cache_extends(a, b, levels, self.substitutions(), self.cached());
            assert forall|sid: u32| #[trigger]
                self.substitutions().contains_key(sid) implies subst_valid(
                b,
                self.substitutions()[sid],
            ) by {
                lemma_subst_extends(a, b, levels, self.substitutions()[sid]);
            }
            assert forall|i: int| 0 <= i < b.len() implies self.unique@.contains_key(
                Self::unique_key(#[trigger] b[i]),
            ) && self.unique@[Self::unique_key(b[i])] == i + 1 by {
                if i < a.len() {
                    assert(b[i] == a[i]);
                    assert(old(self).unique@.contains_key(Self::unique_key(a[i])));
                }
            }
            assert(self.tables_ok());
        }
        Ok(Edge { node: id, tag: EdgeTag::Regular })
    }

    /// Adds a variable below all others, with a node that decides on it between `t` and `e`, and
    /// returns the edge to that node.
    pub fn add_level(&mut self, t: Edge, e: Edge) -> (r: AllocResult<Edge>)
        requires
            old(self).wf(),
            old(self).levels() < LevelNo::MAX,
            t == Edge::constant(true),
            e == Edge::constant(false),
        ensures
            final(self).wf(),
            extends(old(self).nodes(), final(self).nodes()),
            final(self).capacity() == old(self).capacity(),
            final(self).threads() == old(self).threads(),
            final(self).substitutions() == old(self).substitutions(),
            r is Err <==> old(self).is_full(),
            match r {
                Ok(edge) => {
                    let node = InnerNode { level: old(self).levels(), t, e };
                    &&& final(self).levels() == old(self).levels() + 1
                    &&& final(self).nodes() == old(self).nodes().push(node)
                    &&& final(self).has(edge)
                    &&& is_inner(edge)
                    &&& !edge.neg()
                    &&& node_of(final(self).nodes(), edge) == node
                },
                Err(_) => final(self).levels() == old(self).levels() && final(self).nodes() == old(
                    self,
                ).nodes(),
            },
    {
        if self.nodes.len() >= self.capacity as usize {
            return Err(OutOfMemory);
        }
        let level: LevelNo = self.num_levels;
        self.num_levels = level + 1;
        proof {
            let nodes = self.nodes();
            assert forall|i: int| 0 <= i < nodes.len() implies #[trigger] node_ok(
                nodes,
                self.levels(),
                i,
            ) by {
                assert(node_ok(nodes, old(self).levels(), i));
            }
        }
        let ghost before = *self;
        assert(before.tables_ok());
        let r = self.insert_node(InnerNode { level, t, e });
        proof {
            let node = InnerNode { level, t, e };
            assert forall|i: int| 0 <= i < old(self).nodes().len() implies #[trigger] old(
                self,
            ).nodes()[i] != node by {
                assert(node_ok(old(self).nodes(), old(self).levels(), i));
            }
            let nodes = self.nodes();
            lemma_variables_extends(old(self).nodes(), nodes, old(self).levels());
            assert(nodes[old(self).nodes().len() as int] == variable_node(level));
        }
        r
    }

    /// Looks `key` up in the apply cache.
    pub(crate) fn cache_get(&self, key: BCDDKey) -> (r: Option<Edge>)
        requires
            self.wf(),
        ensures
            r == if self.cached().contains_key(key) {
                Some(self.cached()[key])
            } else {
                None
            },
            r matches Some(e) ==> entry_ok(self.nodes(), self.substitutions(), key, e),
    {
        self.cache.get(key)
    }

    /// Adds `value` as the result of `key` to the apply cache.
    pub(crate) fn cache_add(&mut self, key: BCDDKey, value: Edge)
        requires
            old(self).wf(),
            entry_ok(old(self).nodes(), old(self).substitutions(), key, value),
        ensures
            final(self).wf(),
            old(self).grows_to(final(self)),
            final(self).nodes() == old(self).nodes(),
            final(self).cached().contains_key(key),
            final(self).cached()[key] == value,
    {
        self.cache.add_entry(key, value);
    }

    /// Records that `id` is the number of the substitution `m`, if that substitution is `used`.
    pub(crate) fn register_substitution(
        &mut self,
        id: u32,
        Ghost(m): Ghost<Map<LevelNo, Edge>>,
        Ghost(used): Ghost<bool>,
    )
        requires
            old(self).wf(),
            subst_valid(old(self).nodes(), m),
            used && old(self).substitutions().contains_key(id) ==> old(self).substitutions()[id]
                == m,
        ensures
            final(self).wf(),
            final(self).nodes() == old(self).nodes(),
            final(self).levels() == old(self).levels(),
            final(self).capacity() == old(self).capacity(),
            final(self).threads() == old(self).threads(),
            final(self).substitutions() == if used {
                old(self).substitutions().insert(id, m)
            } else {
                old(self).substitutions()
            },
            final(self).cached() == old(self).cached(),
    {
        self.substitutions =
        Ghost(
            if used {
                self.substitutions@.insert(id, m)
            } else {
                self.substitutions@
            },
        );
        proof {
            assert forall|k: BCDDKey| #[trigger] self.cached().contains_key(k) implies entry_ok(
                self.nodes(),
                self.substitutions(),
                k,
                self.cached()[k],
            ) by {
                assert(old(self).cached().contains_key(k));
            }
        }
    }
}

/// The result `r` of an operation comes out of the apply cache if it is there under `key`, in which
/// case nothing changes. Otherwise it is there afterwards.
pub open spec fn memoised(
    before: Manager,
    after: Manager,
    key: BCDDKey,
    r: AllocResult<Edge>,
) -> bool {
    if before.cached().contains_key(key) {
        &&& r == Ok::<Edge, OutOfMemory>(before.cached()[key])
        &&& after.nodes() == before.nodes()
        &&& after.cached() == before.cached()
    } else {
        r matches Ok(e) ==> after.cached().contains_key(key) && after.cached()[key] == e
    }
}

/// The key of a binary operator, which is commutative: the operands are ordered.
pub open spec fn bin_key(op: BCDDOp, f: Edge, g: Edge) -> BCDDKey {
    let (a, b) = if f.node < g.node {
        (f, g)
    } else {
        (g, f)
    };
    BCDDKey { op, f: a, g: b, h: Edge::constant(true), num: 0 }
}

/// The result with the edge negated if `flip`.
pub open spec fn flipped_result(r: AllocResult<Edge>, flip: bool) -> AllocResult<Edge> {
    match r {
        Ok(e) => Ok(e.flipped(flip)),
        Err(err) => Err(err),
    }
}

/// The result `r` of a binary operator, negated if `flip`, is memoised unless it is trivial: an
/// operand is a terminal, or both refer to the same node.
pub open spec fn bin_memoised(
    before: Manager,
    after: Manager,
    op: BCDDOp,
    f: Edge,
    g: Edge,
    flip: bool,
    r: AllocResult<Edge>,
) -> bool {
    is_inner(f) && is_inner(g) && f.node != g.node ==> memoised(
        before,
        after,
        bin_key(op, f, g),
        flipped_result(r, flip),
    )
}

/// The key of the if-then-else operator.
pub open spec fn ite_key(f: Edge, g: Edge, h: Edge) -> BCDDKey {
    BCDDKey { op: BCDDOp::Ite, f, g, h, num: 0 }
}

/// The key of the substitution with the number `id`.
pub open spec fn subst_key(f: Edge, id: u32) -> BCDDKey {
    BCDDKey {
        op: BCDDOp::Substitute,
        f,
        g: Edge::constant(true),
        h: Edge::constant(true),
        num: id,
    }
}

/// The key of the restriction of `f`, whose tag does not matter, to the cube `vars`.
pub open spec fn restrict_key(f: Edge, vars: Edge) -> BCDDKey {
    BCDDKey {
        op: BCDDOp::Restrict,
        f: f.tagged(EdgeTag::Regular),
        g: vars,
        h: Edge::constant(true),
        num: 0,
    }
}

/// The key of a quantification: except for unique quantification, the variables above `f` are
/// removed.
pub open spec fn quant_key(nodes: Seq<InnerNode>, op: BCDDOp, f: Edge, vars: Edge) -> BCDDKey {
    let vars = if op == BCDDOp::Unique {
        vars
    } else {
        popped(nodes, vars, level_of(nodes, f))
    };
    BCDDKey { op, f, g: vars, h: Edge::constant(true), num: 0 }
}

/// The number `id` stands for a substitution that `subst` represents.
pub open spec fn is_registered(manager: Manager, subst: Seq<Edge>, id: u32) -> bool {
    &&& manager.substitutions().contains_key(id)
    &&& represents(manager.nodes(), subst, manager.substitutions()[id])
}

/// A full store cannot grow.
pub proof fn lemma_full(before: &Manager, after: &Manager)
    requires
        before.is_full(),
        before.grows_to(after),
        after.wf(),
    ensures
        after.nodes() == before.nodes(),
{
    assert(after.nodes() =~= before.nodes());
}

/// Cached results stay correct when nodes are added.
proof fn lemma_cache_extends(
    a: Seq<InnerNode>,
    b: Seq<InnerNode>,
    levels: LevelNo,
    substitutions: Map<u32, Map<LevelNo, Edge>>,
    cache: Map<BCDDKey, Edge>,
)
    requires
        is_diagram(a, levels),
        extends(a, b),
        cache_ok(a, substitutions, cache),
        forall|id: u32| #[trigger]
            substitutions.contains_key(id) ==> subst_valid(a, substitutions[id]),
    ensures
        cache_ok(b, substitutions, cache),
{
    lemma_extends(a, b, levels);
    assert forall|k: BCDDKey| #[trigger] cache.contains_key(k) implies entry_ok(
        b,
        substitutions,
        k,
        cache[k],
    ) by {
        let r = cache[k];
        assert(entry_ok(a, substitutions, k, r));
        match k.op {
            BCDDOp::And | BCDDOp::Xor | BCDDOp::Ite => {},
            BCDDOp::Substitute => {
                lemma_subst_extends(a, b, levels, substitutions[k.num]);
            },
            BCDDOp::Restrict => {
                lemma_cube_extends(a, b, levels, k.g);
            },
            _ => {
                lemma_var_set_extends(a, b, levels, k.g);
                assert forall|env: Set<LevelNo>| #[trigger]
                    eval(b, r, env) == quantify(k.op, b, k.f, var_set(b, k.g), env) by {
                    lemma_quantify_extends(a, b, levels, k.op, k.f, var_set(a, k.g), env);
                    assert(eval(b, r, env) == eval(a, r, env));
                }
            },
        }
    }
}

} // verus!
