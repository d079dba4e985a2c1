//! The store that owns the nodes of a list decision diagram.

use super::firing::{
    events_known, image, lemma_events_extends, lemma_meta_extends, meta_of, reachable, step_rel,
    SaturationEvent,
};
use super::semantics::{
    above, empty, extends, fits, height, is_inner, is_ldd, lemma_extends, node_of, node_ok, unit,
    valid, vectors, LDDEdge, LDDNode,
};
use crate::util::apply_cache::{share_slot, ApplyCache, CacheKey};
use crate::util::unique_table::UniqueTable;
use crate::util::{AllocResult, OutOfMemory};
use vstd::prelude::*;

verus! {

/// The largest number of inner nodes that a manager can hold.
pub const MAX_NODES: u32 = 0xffff_fff0;

/// The operators whose results are kept in the apply cache.
#[derive(Clone, Copy, PartialEq, Eq, Structural, Debug, Hash)]
pub enum LDDOp {
    /// Union of two sets.
    Union,
    /// Saturation of a set.
    Saturate,
    /// Firing of a part of an event, followed by saturation.
    SatRecFire,
}

/// An operator with its operands. Operands that the operator does not have are 0.
#[derive(Clone, Copy, PartialEq, Eq, Structural, Debug, Hash)]
pub struct LDDKey {
    /// The operator.
    pub op: LDDOp,
    /// The first operand.
    pub a: LDDEdge,
    /// The second operand.
    pub b: LDDEdge,
    /// The third operand.
    pub c: LDDEdge,
    /// The number that identifies the events.
    pub epoch: u32,
    /// The position of the first operand.
    pub pos: u32,
}

/// A number that identifies the operator.
spec fn op_code(op: LDDOp) -> u32 {
    match op {
        LDDOp::Union => 0,
        LDDOp::Saturate => 1,
        LDDOp::SatRecFire => 2,
    }
}

impl CacheKey for LDDKey {
    closed spec fn slot_number(&self) -> u64 {
        (self.a.id as u64 * 12582917 + self.b.id as u64 * 4256249 + self.c.id as u64 * 741457
            + self.epoch as u64 * 1618033 + self.pos as u64 * 31 + op_code(self.op) as u64) as u64
    }

    fn hash(&self) -> (h: u64) {
        let op: u64 = match self.op {
            LDDOp::Union => 0,
            LDDOp::Saturate => 1,
            LDDOp::SatRecFire => 2,
        };
        self.a.id as u64 * 12582917 + self.b.id as u64 * 4256249 + self.c.id as u64 * 741457
            + self.epoch as u64 * 1618033 + self.pos as u64 * 31 + op
    }

    fn same(&self, other: &Self) -> (b: bool) {
        *self == *other
    }
}

/// What the cached result `r` of `k` is known to be.
pub open spec fn entry_ok(
    nodes: Seq<LDDNode>,
    epochs: Map<u32, Seq<SaturationEvent>>,
    k: LDDKey,
    r: LDDEdge,
) -> bool {
    &&& valid(nodes, k.a)
    &&& valid(nodes, k.b)
    &&& valid(nodes, k.c)
    &&& valid(nodes, r)
    &&& k.op != LDDOp::Union ==> epochs.contains_key(k.epoch)
    &&& vectors(nodes, r) == match k.op {
        LDDOp::Union => vectors(nodes, k.a).union(vectors(nodes, k.b)),
        LDDOp::Saturate => reachable(
            nodes,
            epochs[k.epoch],
            k.pos as int,
            k.pos as int,
            vectors(nodes, k.a),
        ),
        LDDOp::SatRecFire => reachable(
            nodes,
            epochs[k.epoch],
            k.pos as int,
            k.pos as int,
            image(vectors(nodes, k.a), vectors(nodes, k.b), meta_of(nodes, k.c)),
        ),
    }
}

/// Every cached result is what its operator computes.
pub open spec fn cache_ok(
    nodes: Seq<LDDNode>,
    epochs: Map<u32, Seq<SaturationEvent>>,
    cache: Map<LDDKey, LDDEdge>,
) -> bool {
    forall|k: LDDKey| #[trigger] cache.contains_key(k) ==> entry_ok(nodes, epochs, k, cache[k])
}

/// The result `r` of an operation comes out of the apply cache if it is there under `key`, in which
/// case nothing changes. Otherwise it is there afterwards.
pub open spec fn memoised(
    before: LDDManager,
    after: LDDManager,
    key: LDDKey,
    r: AllocResult<LDDEdge>,
) -> bool {
    if before.cached().contains_key(key) {
        &&& r == Ok::<LDDEdge, OutOfMemory>(before.cached()[key])
        &&& after.nodes() == before.nodes()
        &&& after.cached() == before.cached()
    } else {
        r matches Ok(e) ==> after.cached().contains_key(key) && after.cached()[key] == e
    }
}

/// What an edge points to.
#[derive(Clone, Copy, PartialEq, Eq, Structural, Debug, Hash)]
pub enum Node {
    /// An inner node.
    Inner(LDDNode),
    /// A terminal.
    Terminal(LDDTerminal),
}

/// The terminals.
#[derive(Clone, Copy, PartialEq, Eq, Structural, Debug, Hash)]
pub enum LDDTerminal {
    /// The empty set.
    Empty,
    /// The set that consists of the empty vector.
    True,
}

/// The store of a diagram, with its unique table and its apply cache.
pub struct LDDManager {
    nodes: Vec<LDDNode>,
    unique: UniqueTable,
    cache: ApplyCache<LDDKey, LDDEdge>,
    capacity: u32,
    epochs: Ghost<Map<u32, Seq<SaturationEvent>>>,
}

impl LDDManager {
    /// The inner nodes.
    pub closed spec fn nodes(&self) -> Seq<LDDNode> {
        self.nodes@
    }

    /// The number of inner nodes that there is room for.
    pub closed spec fn capacity(&self) -> nat {
        self.capacity as nat
    }

    /// The cached results.
    pub closed spec fn cached(&self) -> Map<LDDKey, LDDEdge> {
        self.cache@
    }

    /// The number of results that the apply cache has room for.
    pub closed spec fn cache_slots(&self) -> nat {
        self.cache.num_slots()
    }

    /// The events that the numbers used for saturation so far identify.
    pub closed spec fn epochs(&self) -> Map<u32, Seq<SaturationEvent>> {
        self.epochs@
    }

    /// There is no room for another node.
    pub open spec fn is_full(&self) -> bool {
        self.nodes().len() >= self.capacity()
    }

    closed spec fn unique_key(n: LDDNode) -> (u32, u32, u32) {
        (n.value, n.down.id, n.right.id)
    }

    /// The unique table maps every node to its number, and nothing else.
    pub closed spec fn tables_ok(&self) -> bool {
        &&& self.cache.wf()
        &&& self.capacity <= MAX_NODES
        &&& forall|i: int|
            0 <= i < self.nodes@.len() ==> self.unique@.contains_key(
                Self::unique_key(#[trigger] self.nodes@[i]),
            ) && self.unique@[Self::unique_key(self.nodes@[i])] == i + 2
        &&& forall|k: (u32, u32, u32)| #[trigger]
            self.unique@.contains_key(k) ==> 2 <= self.unique@[k] < self.nodes@.len() + 2
                && Self::unique_key(self.nodes@[self.unique@[k] - 2]) == k
    }

    /// The manager is in a consistent state.
    pub open spec fn wf(&self) -> bool {
        &&& is_ldd(self.nodes())
        &&& self.nodes().len() <= self.capacity() <= MAX_NODES
        &&& self.tables_ok()
        &&& cache_ok(self.nodes(), self.epochs(), self.cached())
        &&& forall|epoch: u32| #[trigger]
            self.epochs().contains_key(epoch) ==> events_known(self.nodes(), self.epochs()[epoch])
    }

    /// The edge belongs to this manager.
    pub open spec fn has(&self, e: LDDEdge) -> bool {
        valid(self.nodes(), e)
    }

    /// The set of vectors that `e` stands for.
    pub open spec fn vectors(&self, e: LDDEdge) -> Set<Seq<u32>> {
        vectors(self.nodes(), e)
    }

    /// `later` is this manager after operations that may have added nodes: nothing else that an
    /// edge stands for has changed.
    pub open spec fn grows_to(&self, later: &LDDManager) -> bool {
        &&& extends(self.nodes(), later.nodes())
        &&& later.capacity() == self.capacity()
        &&& later.epochs() == self.epochs()
    }

    /// Creates a manager without inner nodes.
    ///
    /// There is room for `capacity` inner nodes, and the apply cache has `cache_size` slots (at
    /// least one).
    pub fn new(capacity: u32, cache_size: usize) -> (manager: LDDManager)
        requires
            capacity <= MAX_NODES,
        ensures
            manager.wf(),
            manager.nodes() == Seq::<LDDNode>::empty(),
            manager.capacity() == capacity,
            manager.cached() == Map::<LDDKey, LDDEdge>::empty(),
            manager.epochs() == Map::<u32, Seq<SaturationEvent>>::empty(),
    {
        LDDManager {
            nodes: Vec::new(),
            unique: UniqueTable::new(),
            cache: ApplyCache::new(cache_size),
            capacity,
            epochs: Ghost(Map::empty()),
        }
    }

    /// Returns the number of inner nodes.
    pub fn num_inner_nodes(&self) -> (n: usize)
        ensures
            n == self.nodes().len(),
    {
        self.nodes.len()
    }

    /// Returns the edge to a terminal.
    pub fn get_terminal(&self, terminal: LDDTerminal) -> (e: LDDEdge)
        ensures
            self.has(e),
            e == match terminal {
                LDDTerminal::Empty => empty(),
                LDDTerminal::True => unit(),
            },
    {
        match terminal {
            LDDTerminal::Empty => LDDEdge { id: 0 },
            LDDTerminal::True => LDDEdge { id: 1 },
        }
    }

    /// Returns what `e` points to.
    pub fn get_node(&self, e: LDDEdge) -> (node: Node)
        requires
            self.has(e),
        ensures
            node == if is_inner(e) {
                Node::Inner(node_of(self.nodes(), e))
            } else if e == unit() {
                Node::Terminal(LDDTerminal::True)
            } else {
                Node::Terminal(LDDTerminal::Empty)
            },
    {
        if e.id == 0 {
            Node::Terminal(LDDTerminal::Empty)
        } else if e.id == 1 {
            Node::Terminal(LDDTerminal::True)
        } else {
            let i: usize = (e.id - 2) as usize;
            Node::Inner(self.nodes[i])
        }
    }

    /// Returns the edge to `node`, which is added if it does not exist yet.
    pub fn get_or_insert(&mut self, node: LDDNode) -> (r: AllocResult<LDDEdge>)
        requires
            old(self).wf(),
            old(self).has(node.down),
            old(self).has(node.right),
            node.down != empty(),
            node.right != unit(),
            fits(old(self).nodes(), node.right, height(old(self).nodes(), node.down) + 1),
            above(old(self).nodes(), node.right, node.value),
        ensures
            final(self).wf(),
            old(self).grows_to(final(self)),
            r is Err <==> old(self).is_full() && !old(self).nodes().contains(node),
            final(self).nodes() == if r is Err || old(self).nodes().contains(node) {
                old(self).nodes()
            } else {
                old(self).nodes().push(node)
            },
            final(self).cached() == old(self).cached(),
            match r {
                Ok(e) => final(self).has(e) && is_inner(e) && node_of(final(self).nodes(), e)
                    == node,
                Err(_) => true,
            },
    {
        let found: Option<u32> = self.unique.get(node.value, node.down.id, node.right.id);
        match found {
            Some(id) => {
                proof {
                    assert(self.nodes@[id - 2] == node);
                    assert(self.nodes().contains(node));
                }
                return Ok(LDDEdge { id });
            },
            None => {},
        }
        proof {
            assert forall|i: int| 0 <= i < self.nodes@.len() implies #[trigger] self.nodes@[i]
                != node by {
                assert(self.unique@.contains_key(Self::unique_key(self.nodes@[i])));
            }
        }
        if self.nodes.len() >= self.capacity as usize {
            return Err(OutOfMemory);
        }
        let id: u32 = self.nodes.len() as u32 + 2;
        self.nodes.push(node);
        self.unique.insert(node.value, node.down.id, node.right.id, id);
        proof {
            let a = old(self).nodes();
            let b = self.nodes();
            lemma_extends(a, b);
            assert forall|i: int| 0 <= i < b.len() implies #[trigger] node_ok(b, i) by {
                if i < a.len() {
                    assert(node_ok(a, i));
                    assert(b[i] == a[i]);
                    assert(height(b, a[i].down) == height(a, a[i].down));
                }
                assert(height(b, node.down) == height(a, node.down));
            }
            lemma_cache_extends(a, b, self.epochs(), self.cached());
            assert forall|epoch: u32| #[trigger] self.epochs().contains_key(epoch) implies events_known(
                b,
                self.epochs()[epoch],
            ) by {
                lemma_events_extends(a, b, self.epochs()[epoch]);
            }
            assert forall|i: int| 0 <= i < b.len() implies self.unique@.contains_key(
                Self::unique_key(#[trigger] b[i]),
            ) && self.unique@[Self::unique_key(b[i])] == i + 2 by {
                if i < a.len() {
                    assert(b[i] == a[i]);
                    assert(old(self).unique@.contains_key(Self::unique_key(a[i])));
                }
            }
            assert(self.tables_ok());
        }
        Ok(LDDEdge { id })
    }

    /// Looks `key` up in the apply cache.
    pub(crate) fn cache_get(&self, key: LDDKey) -> (r: Option<LDDEdge>)
        requires
            self.wf(),
        ensures
            r == if self.cached().contains_key(key) {
                Some(self.cached()[key])
            } else {
                None
            },
            r matches Some(e) ==> entry_ok(self.nodes(), self.epochs(), key, e),
    {
        self.cache.get(key)
    }

    /// Adds `value` as the result of `key` to the apply cache.
    pub(crate) fn cache_add(&mut self, key: LDDKey, value: LDDEdge)
        requires
            old(self).wf(),
            entry_ok(old(self).nodes(), old(self).epochs(), key, value),
        ensures
            final(self).wf(),
            old(self).grows_to(final(self)),
            final(self).nodes() == old(self).nodes(),
            final(self).cache_slots() == old(self).cache_slots(),
            final(self).cached().contains_key(key),
            final(self).cached()[key] == value,
            forall|k: LDDKey|
                k != key ==> (#[trigger] final(self).cached().contains_key(k) <==> old(
                    self,
                ).cached().contains_key(k) && !share_slot(k, key, old(self).cache_slots())),
            forall|k: LDDKey|
                k != key && #[trigger] final(self).cached().contains_key(k)
                    ==> final(self).cached()[k] == old(self).cached()[k],
    {
        self.cache.add_entry(key, value);
    }

    /// Records that `epoch` identifies `events`, if these are `used`.
    pub(crate) fn register_events(
        &mut self,
        epoch: u32,
        Ghost(events): Ghost<Seq<SaturationEvent>>,
        Ghost(used): Ghost<bool>,
    )
        requires
            old(self).wf(),
            used ==> events_known(old(self).nodes(), events),
            used && old(self).epochs().contains_key(epoch) ==> old(self).epochs()[epoch] == events,
        ensures
            final(self).wf(),
            final(self).nodes() == old(self).nodes(),
            final(self).capacity() == old(self).capacity(),
            final(self).epochs() == if used {
                old(self).epochs().insert(epoch, events)
            } else {
                old(self).epochs()
            },
            final(self).cached() == old(self).cached(),
            final(self).cache_slots() == old(self).cache_slots(),
    {
        self.epochs =
        Ghost(
            if used {
                self.epochs@.insert(epoch, events)
            } else {
                self.epochs@
            },
        );
        proof {
            assert forall|k: LDDKey| #[trigger] self.cached().contains_key(k) implies entry_ok(
                self.nodes(),
                self.epochs(),
                k,
                self.cached()[k],
            ) by {
                assert(old(self).cached().contains_key(k));
            }
        }
    }
}

/// Cached results stay correct when nodes are added.
proof fn lemma_cache_extends(
    a: Seq<LDDNode>,
    b: Seq<LDDNode>,
    epochs: Map<u32, Seq<SaturationEvent>>,
    cache: Map<LDDKey, LDDEdge>,
)
    requires
        is_ldd(a),
        extends(a, b),
        cache_ok(a, epochs, cache),
        forall|epoch: u32| #[trigger]
            epochs.contains_key(epoch) ==> events_known(a, epochs[epoch]),
    ensures
        cache_ok(b, epochs, cache),
{
    lemma_extends(a, b);
    assert forall|k: LDDKey| #[trigger] cache.contains_key(k) implies entry_ok(
        b,
        epochs,
        k,
        cache[k],
    ) by {
        assert(entry_ok(a, epochs, k, cache[k]));
        assert(vectors(b, cache[k]) == vectors(a, cache[k]));
        assert(vectors(b, k.a) == vectors(a, k.a));
        assert(vectors(b, k.b) == vectors(a, k.b));
        lemma_meta_extends(a, b, k.c);
        if k.op != LDDOp::Union {
            lemma_events_extends(a, b, epochs[k.epoch]);
            assert(step_rel(b, epochs[k.epoch], k.pos as int, k.pos as int) == step_rel(
                a,
                epochs[k.epoch],
                k.pos as int,
                k.pos as int,
            ));
        }
    }
}

} // verus!
