//! Edges and nodes of a diagram.

use vstd::prelude::*;

verus! {

/// The number of a level; level 0 is at the top.
pub type LevelNo = u32;

/// Whether an edge complements the function of the node it points to.
#[derive(Clone, Copy, PartialEq, Eq, Structural, Debug, Hash)]
pub enum EdgeTag {
    /// The edge stands for the function of its node.
    Regular,
    /// The edge stands for the negation of that function.
    Complemented,
}

/// A tagged reference to a node.
///
/// Node 0 is the only terminal, which stands for "true". Every other number refers to an inner
/// node.
#[derive(Clone, Copy, PartialEq, Eq, Structural, Debug, Hash)]
pub struct Edge {
    /// The number of the node.
    pub node: u32,
    /// Whether the function of the node is complemented.
    pub tag: EdgeTag,
}

/// A decision on the variable at `level`.
#[derive(Clone, Copy, PartialEq, Eq, Structural, Debug, Hash)]
pub struct InnerNode {
    /// The level of the variable.
    pub level: LevelNo,
    /// The function if the variable is true.
    pub t: Edge,
    /// The function if the variable is false.
    pub e: Edge,
}

/// What an edge points to.
#[derive(Clone, Copy, PartialEq, Eq, Structural, Debug, Hash)]
pub enum Node {
    /// An inner node.
    Inner(InnerNode),
    /// The terminal.
    Terminal,
}

/// The operators whose results are kept in the apply cache.
#[derive(Clone, Copy, PartialEq, Eq, Structural, Debug, Hash)]
pub enum BCDDOp {
    /// Conjunction.
    And,
    /// Exclusive disjunction.
    Xor,
    /// If-then-else.
    Ite,
    /// Substitution of functions for variables.
    Substitute,
    /// Restriction of variables to constants.
    Restrict,
    /// Universal quantification.
    Forall,
    /// Existential quantification.
    Exist,
    /// Unique quantification: exclusive disjunction of both cofactors.
    Unique,
}

impl EdgeTag {
    /// The tag `Complemented` if `neg`, else `Regular`.
    pub fn from_neg(neg: bool) -> (tag: EdgeTag)
        ensures
            tag == if neg {
                EdgeTag::Complemented
            } else {
                EdgeTag::Regular
            },
    {
        if neg {
            EdgeTag::Complemented
        } else {
            EdgeTag::Regular
        }
    }
}

impl Edge {
    /// Whether this edge complements the function of its node.
    pub open spec fn neg(self) -> bool {
        self.tag == EdgeTag::Complemented
    }

    /// The edge to the same node with the tag `tag`.
    pub open spec fn tagged(self, tag: EdgeTag) -> Edge {
        Edge { node: self.node, tag }
    }

    /// The edge to the same node whose tag is flipped if `flip`.
    pub open spec fn flipped(self, flip: bool) -> Edge {
        self.tagged(
            if self.neg() != flip {
                EdgeTag::Complemented
            } else {
                EdgeTag::Regular
            },
        )
    }

    /// The edge that stands for the constant `value`.
    pub open spec fn constant(value: bool) -> Edge {
        Edge {
            node: 0,
            tag: if value {
                EdgeTag::Regular
            } else {
                EdgeTag::Complemented
            },
        }
    }

    /// Returns this edge with the tag `tag`.
    pub fn with_tag(self, tag: EdgeTag) -> (r: Edge)
        ensures
            r == self.tagged(tag),
    {
        Edge { node: self.node, tag }
    }

    /// Returns this edge with its tag flipped if `flip` is `Complemented`.
    pub fn xor_tag(self, flip: EdgeTag) -> (r: Edge)
        ensures
            r == self.flipped(flip == EdgeTag::Complemented),
    {
        if self.tag == flip {
            self.with_tag(EdgeTag::Regular)
        } else {
            self.with_tag(EdgeTag::Complemented)
        }
    }
}

} // verus!
