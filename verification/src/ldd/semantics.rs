//! What the edges of a list decision diagram stand for: sets of vectors.
//!
//! A diagram is a sequence of inner nodes; node number `i + 2` is the entry at index `i`.

use vstd::prelude::*;

verus! {

/// A reference to a node. Number 0 is the terminal for the empty set, number 1 the terminal for the
/// set that consists of the empty vector; all others are inner nodes.
#[derive(Clone, Copy, PartialEq, Eq, Structural, Debug, Hash)]
pub struct LDDEdge {
    /// The number of the node.
    pub id: u32,
}

/// An inner node: the vectors that start with `value` and continue with one of `down`, and the
/// vectors of `right`.
#[derive(Clone, Copy, PartialEq, Eq, Structural, Debug, Hash)]
pub struct LDDNode {
    /// The first component.
    pub value: u32,
    /// The continuations of `value`.
    pub down: LDDEdge,
    /// The vectors that start with a greater value.
    pub right: LDDEdge,
}

/// The edge refers to a node of the diagram.
pub open spec fn valid(nodes: Seq<LDDNode>, e: LDDEdge) -> bool {
    e.id < nodes.len() + 2
}

/// The edge for the empty set.
pub open spec fn empty() -> LDDEdge {
    LDDEdge { id: 0 }
}

/// The edge for the set that consists of the empty vector.
pub open spec fn unit() -> LDDEdge {
    LDDEdge { id: 1 }
}

/// The edge refers to an inner node.
pub open spec fn is_inner(e: LDDEdge) -> bool {
    e.id >= 2
}

/// The inner node that the edge refers to.
pub open spec fn node_of(nodes: Seq<LDDNode>, e: LDDEdge) -> LDDNode {
    nodes[e.id - 2]
}

/// The vector `x` belongs to the set `e`.
pub open spec fn member(nodes: Seq<LDDNode>, e: LDDEdge, x: Seq<u32>) -> bool
    decreases e.id,
{
    if e.id == 0 || e.id >= nodes.len() + 2 {
        false
    } else if e.id == 1 {
        x.len() == 0
    } else {
        let n = nodes[e.id - 2];
        x.len() > 0 && ((x[0] == n.value && n.down.id < e.id && member(
            nodes,
            n.down,
            x.drop_first(),
        )) || (n.right.id < e.id && member(nodes, n.right, x)))
    }
}

/// The set of vectors that `e` stands for.
pub open spec fn vectors(nodes: Seq<LDDNode>, e: LDDEdge) -> Set<Seq<u32>> {
    Set::new(|x: Seq<u32>| member(nodes, e, x))
}

/// The length of the vectors of `e`.
pub open spec fn height(nodes: Seq<LDDNode>, e: LDDEdge) -> nat
    decreases e.id,
{
    if e.id < 2 || e.id >= nodes.len() + 2 {
        0
    } else {
        let n = nodes[e.id - 2];
        if n.down.id < e.id {
            1 + height(nodes, n.down)
        } else {
            0
        }
    }
}

/// All vectors of `e` have the length `h`.
pub open spec fn fits(nodes: Seq<LDDNode>, e: LDDEdge, h: nat) -> bool {
    valid(nodes, e) && (e == empty() || height(nodes, e) == h)
}

/// The vectors of `e` start with values greater than `value`.
pub open spec fn above(nodes: Seq<LDDNode>, e: LDDEdge, value: u32) -> bool {
    is_inner(e) ==> node_of(nodes, e).value > value
}

/// The node at index `i` is fine by itself: there are continuations, and the values to the right
/// are greater and have continuations of the same length.
pub open spec fn node_ok(nodes: Seq<LDDNode>, i: int) -> bool {
    let n = nodes[i];
    &&& 0 < n.down.id < i + 2
    &&& n.right.id < i + 2
    &&& n.right != unit()
    &&& fits(nodes, n.right, height(nodes, n.down) + 1)
    &&& above(nodes, n.right, n.value)
}

/// The nodes form a diagram: every node is fine by itself, and no node occurs twice.
pub open spec fn is_ldd(nodes: Seq<LDDNode>) -> bool {
    &&& forall|i: int| 0 <= i < nodes.len() ==> #[trigger] node_ok(nodes, i)
    &&& forall|i: int, j: int|
        0 <= i < j < nodes.len() ==> #[trigger] nodes[i] != #[trigger] nodes[j]
}

/// Every node of `a` is the same node in `b`.
pub open spec fn extends(a: Seq<LDDNode>, b: Seq<LDDNode>) -> bool {
    &&& a.len() <= b.len()
    &&& forall|i: int| 0 <= i < a.len() ==> #[trigger] b[i] == a[i]
}

/// The vectors that start with `value` and continue with a vector of `s`.
pub open spec fn prefixed(value: u32, s: Set<Seq<u32>>) -> Set<Seq<u32>> {
    Set::new(|x: Seq<u32>| x.len() > 0 && x[0] == value && s.contains(x.drop_first()))
}

/// The vector that starts with `value` and continues with `w`.
pub open spec fn cons(value: u32, w: Seq<u32>) -> Seq<u32> {
    seq![value] + w
}

/// The parts of a vector built by [`cons`].
pub broadcast proof fn lemma_cons(value: u32, w: Seq<u32>)
    ensures
        (#[trigger] cons(value, w)).len() == w.len() + 1,
        cons(value, w)[0] == value,
        cons(value, w).drop_first() == w,
{
    assert(cons(value, w).drop_first() =~= w);
}

/// A vector is made of its first component and the rest.
pub proof fn lemma_uncons(x: Seq<u32>)
    requires
        x.len() > 0,
    ensures
        cons(x[0], x.drop_first()) == x,
{
    assert(cons(x[0], x.drop_first()) =~= x);
}

proof fn lemma_member_extends(a: Seq<LDDNode>, b: Seq<LDDNode>, e: LDDEdge, x: Seq<u32>)
    requires
        is_ldd(a),
        extends(a, b),
        valid(a, e),
    ensures
        member(b, e, x) == member(a, e, x),
        height(b, e) == height(a, e),
    decreases e.id,
{
    if is_inner(e) {
        let n = a[e.id - 2];
        assert(node_ok(a, e.id - 2));
        assert(b[e.id - 2] == n);
        lemma_member_extends(a, b, n.down, x.drop_first());
        lemma_member_extends(a, b, n.right, x);
    }
}

/// Adding nodes does not change the set that an edge stands for.
pub proof fn lemma_extends(a: Seq<LDDNode>, b: Seq<LDDNode>)
    requires
        is_ldd(a),
        extends(a, b),
    ensures
        forall|e: LDDEdge| #[trigger] valid(a, e) ==> valid(b, e),
        forall|e: LDDEdge| valid(a, e) ==> #[trigger] height(b, e) == height(a, e),
        forall|e: LDDEdge, h: nat| #[trigger] fits(a, e, h) ==> fits(b, e, h),
        forall|e: LDDEdge| valid(a, e) ==> #[trigger] vectors(b, e) == vectors(a, e),
{
    assert forall|e: LDDEdge| valid(a, e) implies #[trigger] height(b, e) == height(a, e) by {
        lemma_member_extends(a, b, e, Seq::empty());
    }
    assert forall|e: LDDEdge| valid(a, e) implies #[trigger] vectors(b, e) == vectors(a, e) by {
        assert forall|x: Seq<u32>| member(b, e, x) == member(a, e, x) by {
            lemma_member_extends(a, b, e, x);
        }
        assert(vectors(b, e) =~= vectors(a, e));
    }
}

/// All vectors of a set have its length.
pub proof fn lemma_member_len(nodes: Seq<LDDNode>, e: LDDEdge, x: Seq<u32>)
    requires
        is_ldd(nodes),
        valid(nodes, e),
        member(nodes, e, x),
    ensures
        x.len() == height(nodes, e),
    decreases e.id,
{
    if is_inner(e) {
        let n = nodes[e.id - 2];
        assert(node_ok(nodes, e.id - 2));
        if x[0] == n.value && member(nodes, n.down, x.drop_first()) {
            lemma_member_len(nodes, n.down, x.drop_first());
        } else {
            lemma_member_len(nodes, n.right, x);
        }
    }
}

/// The values of a set are those of its node and greater ones.
pub proof fn lemma_member_above(nodes: Seq<LDDNode>, e: LDDEdge, value: u32, x: Seq<u32>)
    requires
        is_ldd(nodes),
        valid(nodes, e),
        e != unit(),
        above(nodes, e, value),
        member(nodes, e, x),
    ensures
        x.len() > 0,
        x[0] > value,
    decreases e.id,
{
    if is_inner(e) {
        let n = nodes[e.id - 2];
        assert(node_ok(nodes, e.id - 2));
        if !(x[0] == n.value && member(nodes, n.down, x.drop_first())) {
            lemma_member_above(nodes, n.right, value, x);
        }
    }
}

/// A set other than the empty one has a vector.
pub proof fn lemma_nonempty(nodes: Seq<LDDNode>, e: LDDEdge) -> (x: Seq<u32>)
    requires
        is_ldd(nodes),
        valid(nodes, e),
        e != empty(),
    ensures
        member(nodes, e, x),
    decreases e.id,
{
    if is_inner(e) {
        let n = nodes[e.id - 2];
        assert(node_ok(nodes, e.id - 2));
        let w = lemma_nonempty(nodes, n.down);
        lemma_cons(n.value, w);
        cons(n.value, w)
    } else {
        Seq::empty()
    }
}

/// The terminals.
pub proof fn lemma_terminals(nodes: Seq<LDDNode>)
    ensures
        vectors(nodes, empty()) == Set::<Seq<u32>>::empty(),
        vectors(nodes, unit()) == Set::<Seq<u32>>::empty().insert(Seq::empty()),
{
    assert(vectors(nodes, empty()) =~= Set::<Seq<u32>>::empty());
    assert forall|x: Seq<u32>| x.len() == 0 implies x == Seq::<u32>::empty() by {
        assert(x =~= Seq::<u32>::empty());
    }
    assert(vectors(nodes, unit()) =~= Set::<Seq<u32>>::empty().insert(Seq::empty()));
}

/// The parts of an inner node.
pub proof fn lemma_inner(nodes: Seq<LDDNode>, e: LDDEdge)
    requires
        is_ldd(nodes),
        valid(nodes, e),
        is_inner(e),
    ensures
        ({
            let n = node_of(nodes, e);
            let h = height(nodes, n.down);
            &&& valid(nodes, n.down)
            &&& valid(nodes, n.right)
            &&& n.down != empty()
            &&& n.right != unit()
            &&& n.down.id < e.id
            &&& n.right.id < e.id
            &&& height(nodes, e) == h + 1
            &&& fits(nodes, n.right, h + 1)
            &&& above(nodes, n.right, n.value)
            &&& vectors(nodes, e) == prefixed(n.value, vectors(nodes, n.down)).union(
                vectors(nodes, n.right),
            )
            &&& forall|x: Seq<u32>| #[trigger]
                vectors(nodes, n.right).contains(x) ==> x.len() > 0 && x[0] > n.value
        }),
{
    let n = node_of(nodes, e);
    assert(node_ok(nodes, e.id - 2));
    assert forall|x: Seq<u32>| #[trigger] vectors(nodes, n.right).contains(x) implies x.len() > 0
        && x[0] > n.value by {
        lemma_member_above(nodes, n.right, n.value, x);
    }
    assert(vectors(nodes, e) =~= prefixed(n.value, vectors(nodes, n.down)).union(
        vectors(nodes, n.right),
    ));
}

/// If all vectors start with values greater than `value`, then so does the node.
pub proof fn lemma_above(nodes: Seq<LDDNode>, e: LDDEdge, value: u32)
    requires
        is_ldd(nodes),
        valid(nodes, e),
        forall|x: Seq<u32>| #[trigger]
            vectors(nodes, e).contains(x) ==> x.len() > 0 && x[0] > value,
    ensures
        above(nodes, e, value),
        e != unit(),
{
    lemma_terminals(nodes);
    if e == unit() {
        assert(vectors(nodes, e).contains(Seq::<u32>::empty()));
    }
    if is_inner(e) {
        let n = node_of(nodes, e);
        assert(node_ok(nodes, e.id - 2));
        let w = lemma_nonempty(nodes, n.down);
        lemma_cons(n.value, w);
        assert(vectors(nodes, e).contains(cons(n.value, w)));
    }
}

/// Two edges for the same set are the same.
pub proof fn lemma_canonical(nodes: Seq<LDDNode>, a: LDDEdge, b: LDDEdge)
    requires
        is_ldd(nodes),
        valid(nodes, a),
        valid(nodes, b),
        vectors(nodes, a) == vectors(nodes, b),
    ensures
        a == b,
    decreases a.id + b.id,
{
    lemma_terminals(nodes);
    assert forall|x: Seq<u32>| member(nodes, a, x) == member(nodes, b, x) by {
        assert(vectors(nodes, a).contains(x) == member(nodes, a, x));
        assert(vectors(nodes, b).contains(x) == member(nodes, b, x));
    }
    if a == empty() {
        if b != empty() {
            let x = lemma_nonempty(nodes, b);
        }
    } else if b == empty() {
        let x = lemma_nonempty(nodes, a);
    } else if a == unit() || b == unit() {
        assert(member(nodes, a, Seq::empty()) == member(nodes, b, Seq::empty()));
    } else {
        let m = node_of(nodes, a);
        let n = node_of(nodes, b);
        lemma_inner(nodes, a);
        lemma_inner(nodes, b);
        let w1 = lemma_nonempty(nodes, m.down);
        let w2 = lemma_nonempty(nodes, n.down);
        lemma_cons(m.value, w1);
        lemma_cons(n.value, w2);
        assert(vectors(nodes, a).contains(cons(m.value, w1)));
        assert(vectors(nodes, b).contains(cons(n.value, w2)));
        assert(m.value == n.value);
        assert forall|w: Seq<u32>| member(nodes, m.down, w) == member(nodes, n.down, w) by {
            lemma_cons(m.value, w);
            let x = cons(m.value, w);
            assert(vectors(nodes, a).contains(x) == vectors(nodes, m.down).contains(w));
            assert(vectors(nodes, b).contains(x) == vectors(nodes, n.down).contains(w));
        }
        assert(vectors(nodes, m.down) =~= vectors(nodes, n.down));
        assert forall|x: Seq<u32>| vectors(nodes, m.right).contains(x) == vectors(
            nodes,
            n.right,
        ).contains(x) by {
            assert(vectors(nodes, a).contains(x) == (prefixed(
                m.value,
                vectors(nodes, m.down),
            ).contains(x) || vectors(nodes, m.right).contains(x)));
            assert(vectors(nodes, b).contains(x) == (prefixed(
                n.value,
                vectors(nodes, n.down),
            ).contains(x) || vectors(nodes, n.right).contains(x)));
        }
        assert(vectors(nodes, m.right) =~= vectors(nodes, n.right));
        lemma_canonical(nodes, m.down, n.down);
        lemma_canonical(nodes, m.right, n.right);
        assert(m == n);
    }
}

/// No edge of the diagram stands for the set `s`.
pub open spec fn absent(nodes: Seq<LDDNode>, s: Set<Seq<u32>>) -> bool {
    forall|e: LDDEdge| #[trigger] valid(nodes, e) ==> vectors(nodes, e) != s
}

/// There are edges for both parts of a node, but the node is missing.
pub open spec fn unmade(
    nodes: Seq<LDDNode>,
    value: u32,
    s: Set<Seq<u32>>,
    t: Set<Seq<u32>>,
) -> bool {
    exists|down: LDDEdge, right: LDDEdge|
        #![trigger vectors(nodes, down), vectors(nodes, right)]
        {
            &&& valid(nodes, down)
            &&& valid(nodes, right)
            &&& vectors(nodes, down) == s
            &&& vectors(nodes, right) == t
            &&& !nodes.contains((LDDNode { value, down, right }))
        }
}

/// A set that lacks an edge for a part of its node, or the node itself, has no edge.
pub proof fn lemma_absent_node(
    nodes: Seq<LDDNode>,
    value: u32,
    s: Set<Seq<u32>>,
    t: Set<Seq<u32>>,
    w: Seq<u32>,
)
    requires
        is_ldd(nodes),
        s.contains(w),
        forall|x: Seq<u32>| #[trigger] t.contains(x) ==> x.len() > 0 && x[0] > value,
        absent(nodes, s) || absent(nodes, t) || unmade(nodes, value, s, t),
    ensures
        absent(nodes, prefixed(value, s).union(t)),
{
    let all = prefixed(value, s).union(t);
    assert forall|e: LDDEdge| #[trigger] valid(nodes, e) implies vectors(nodes, e) != all by {
        if vectors(nodes, e) == all {
            lemma_terminals(nodes);
            lemma_cons(value, w);
            assert(all.contains(cons(value, w)));
            assert(is_inner(e));
            let n = node_of(nodes, e);
            lemma_inner(nodes, e);
            let d = vectors(nodes, n.down);
            let r = vectors(nodes, n.right);
            let w1 = lemma_nonempty(nodes, n.down);
            assert(d.contains(w1));
            lemma_cons(n.value, w1);
            assert(vectors(nodes, e).contains(cons(n.value, w1)));
            assert(n.value == value);
            assert forall|x: Seq<u32>| d.contains(x) == s.contains(x) by {
                lemma_cons(value, x);
                assert(vectors(nodes, e).contains(cons(value, x)) == d.contains(x));
                assert(all.contains(cons(value, x)) == s.contains(x));
            }
            assert(d =~= s);
            assert forall|x: Seq<u32>| r.contains(x) == t.contains(x) by {
                assert(vectors(nodes, e).contains(x) == (prefixed(value, d).contains(x)
                    || r.contains(x)));
                assert(all.contains(x) == (prefixed(value, s).contains(x) || t.contains(x)));
            }
            assert(r =~= t);
            assert(valid(nodes, n.down) && valid(nodes, n.right));
            let (down, right) = choose|down: LDDEdge, right: LDDEdge|
                #![trigger vectors(nodes, down), vectors(nodes, right)]
                {
                    &&& valid(nodes, down)
                    &&& valid(nodes, right)
                    &&& vectors(nodes, down) == s
                    &&& vectors(nodes, right) == t
                    &&& !nodes.contains((LDDNode { value, down, right }))
                };
            lemma_canonical(nodes, down, n.down);
            lemma_canonical(nodes, right, n.right);
            assert(nodes[e.id - 2] == (LDDNode { value, down, right }));
        }
    }
}

/// If there is no node for the parts `down` and `right`, the set that it would stand for has no edge.
pub proof fn lemma_unmade(nodes: Seq<LDDNode>, value: u32, down: LDDEdge, right: LDDEdge)
    requires
        is_ldd(nodes),
        valid(nodes, down),
        valid(nodes, right),
        down != empty(),
        right != unit(),
        above(nodes, right, value),
        !nodes.contains((LDDNode { value, down, right })),
    ensures
        absent(nodes, prefixed(value, vectors(nodes, down)).union(vectors(nodes, right))),
{
    let w = lemma_nonempty(nodes, down);
    assert(vectors(nodes, down).contains(w));
    assert forall|x: Seq<u32>| #[trigger] vectors(nodes, right).contains(x) implies x.len() > 0
        && x[0] > value by {
        lemma_member_above(nodes, right, value, x);
    }
    assert(unmade(nodes, value, vectors(nodes, down), vectors(nodes, right)));
    lemma_absent_node(nodes, value, vectors(nodes, down), vectors(nodes, right), w);
}

} // verus!
