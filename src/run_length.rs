//! The integer state of the run-length sampler: where the current epoch
//! began, the cutoff beyond which no node is sampled in parallel, and the
//! largest degree when the epoch began. Whether a node's draws are still
//! independent is decided by the caller, with a floating-point probability;
//! this state takes the outcome.

use crate::Node;
use vstd::prelude::*;

verus! {

/// The bounds of the current epoch.
pub struct EpochBounds {
    lower: Node,
    upper: Node,
    real_lower: Node,
    max_degree: Node,
}

impl EpochBounds {
    /// The next node that a block claim would start at.
    pub closed spec fn spec_lower(&self) -> Node {
        self.lower
    }

    /// No node at or beyond this cutoff is sampled in this epoch.
    pub closed spec fn spec_upper(&self) -> Node {
        self.upper
    }

    /// The first node of the current epoch.
    pub closed spec fn spec_real_lower(&self) -> Node {
        self.real_lower
    }

    /// The largest degree when the epoch began.
    pub closed spec fn spec_max_degree(&self) -> Node {
        self.max_degree
    }

    /// Bounds before the first epoch: everything zero.
    pub fn new() -> (r: Self)
        ensures
            r.spec_lower() == 0,
            r.spec_upper() == 0,
            r.spec_real_lower() == 0,
            r.spec_max_degree() == 0,
    {
        EpochBounds { lower: 0, upper: 0, real_lower: 0, max_degree: 0 }
    }

    /// Starts an epoch at `lower`. The cutoff moves to `upper` unless it
    /// already lies beyond `lower`.
    pub fn setup_epoch(&mut self, lower: Node, upper: Node, max_degree: Node)
        ensures
            final(self).spec_lower() == lower,
            final(self).spec_real_lower() == lower,
            final(self).spec_max_degree() == max_degree,
            final(self).spec_upper() == if old(self).spec_upper() <= lower {
                upper
            } else {
                old(self).spec_upper()
            },
    {
        self.lower = lower;
        self.real_lower = lower;
        if self.upper <= lower {
            self.upper = upper;
        }
        self.max_degree = max_degree;
    }

    pub fn upper(&self) -> (r: Node)
        ensures
            r == self.spec_upper(),
    {
        self.upper
    }

    pub fn lower(&self) -> (r: Node)
        ensures
            r == self.spec_lower(),
    {
        self.lower
    }

    pub fn real_lower(&self) -> (r: Node)
        ensures
            r == self.spec_real_lower(),
    {
        self.real_lower
    }

    pub fn max_degree(&self) -> (r: Node)
        ensures
            r == self.spec_max_degree(),
    {
        self.max_degree
    }

    /// Claims the next `len` nodes for sampling, returning the first.
    pub fn claim_block(&mut self, len: Node) -> (r: Node)
        requires
            old(self).spec_lower() + len <= usize::MAX,
        ensures
            r == old(self).spec_lower(),
            final(self).spec_lower() == old(self).spec_lower() + len,
            final(self).spec_upper() == old(self).spec_upper(),
            final(self).spec_real_lower() == old(self).spec_real_lower(),
            final(self).spec_max_degree() == old(self).spec_max_degree(),
    {
        let start = self.lower;
        self.lower = start + len;
        start
    }

    /// Lowers the cutoff to `node` where it lies beyond.
    pub fn cut_at(&mut self, node: Node)
        ensures
            final(self).spec_upper() == if node < old(self).spec_upper() {
                node
            } else {
                old(self).spec_upper()
            },
            final(self).spec_lower() == old(self).spec_lower(),
            final(self).spec_real_lower() == old(self).spec_real_lower(),
            final(self).spec_max_degree() == old(self).spec_max_degree(),
    {
        if node < self.upper {
            self.upper = node;
        }
    }

    /// Whether `node` may still be sampled in this epoch, given whether its
    /// draws were found independent of the epoch's commits. A node at or
    /// beyond the cutoff may not; a node whose draws are not independent
    /// may not either, and becomes the cutoff.
    pub fn continue_with_node(&mut self, node: Node, independent: bool) -> (r: bool)
        ensures
            r == (node < old(self).spec_upper() && independent),
            final(self).spec_upper() == if node < old(self).spec_upper() && !independent {
                node
            } else {
                old(self).spec_upper()
            },
            final(self).spec_lower() == old(self).spec_lower(),
            final(self).spec_real_lower() == old(self).spec_real_lower(),
            final(self).spec_max_degree() == old(self).spec_max_degree(),
    {
        if self.upper <= node {
            return false;
        }
        if independent {
            return true;
        }
        self.cut_at(node);
        false
    }

    /// How many nodes of the epoch precede `node`.
    pub fn nodes_in_epoch(&self, node: Node) -> (r: Node)
        requires
            self.spec_real_lower() <= node,
        ensures
            r == node - self.spec_real_lower(),
    {
        node - self.real_lower
    }

    /// The largest degree that any node can have reached by the time the
    /// epoch reaches `node`: one more per preceding node of the epoch.
    pub fn max_degree_bound(&self, node: Node) -> (r: Node)
        requires
            self.spec_real_lower() <= node,
            self.spec_max_degree() + (node - self.spec_real_lower()) <= usize::MAX,
        ensures
            r == self.spec_max_degree() + (node - self.spec_real_lower()),
    {
        self.max_degree + (node - self.real_lower)
    }
}

} // verus!
