//! The integer part of the per-node state of the parallel sampler: each
//! node's degree and its number of replicas in the proposal list, and the
//! largest degree seen. Degrees and replica counts only ever grow through
//! the updates that the sampler uses. Also the replica growth of the
//! sequential sampler's proposal list.

use crate::epoch::increase_total;
use crate::Node;
use vstd::prelude::*;

verus! {

/// The sum of a sequence of counts.
pub open spec fn seq_sum(s: Seq<usize>) -> int
    decreases s.len(),
{
    if s.len() == 0 {
        0
    } else {
        seq_sum(s.drop_last()) + s.last()
    }
}

/// Changing one entry changes the sum by the difference.
pub proof fn lemma_seq_sum_update(s: Seq<usize>, i: int, v: usize)
    requires
        0 <= i < s.len(),
    ensures
        seq_sum(s.update(i, v)) == seq_sum(s) - s[i] + v,
    decreases s.len(),
{
    let t = s.update(i, v);
    if i == s.len() - 1 {
        assert(t.drop_last() =~= s.drop_last());
    } else {
        assert(t.drop_last() =~= s.drop_last().update(i, v));
        lemma_seq_sum_update(s.drop_last(), i, v);
    }
}

/// No entry exceeds the sum.
pub proof fn lemma_entry_le_sum(s: Seq<usize>, i: int)
    requires
        0 <= i < s.len(),
    ensures
        s[i] <= seq_sum(s),
    decreases s.len(),
{
    if i < s.len() - 1 {
        lemma_entry_le_sum(s.drop_last(), i);
    }
    lemma_sum_nonnegative(s.drop_last());
}

proof fn lemma_sum_nonnegative(s: Seq<usize>)
    ensures
        seq_sum(s) >= 0,
    decreases s.len(),
{
    if s.len() > 0 {
        lemma_sum_nonnegative(s.drop_last());
    }
}

/// A sequence of `n` zeros sums to zero.
proof fn lemma_seq_sum_zeros(n: nat)
    ensures
        seq_sum(Seq::new(n, |i: int| 0usize)) == 0,
    decreases n,
{
    if n > 0 {
        assert(Seq::new(n, |i: int| 0usize).drop_last() =~= Seq::new((n - 1) as nat, |i: int| 0usize));
        lemma_seq_sum_zeros((n - 1) as nat);
    }
}

/// The degrees after the first `k` of `increases` were applied, in order,
/// to `degrees`.
pub open spec fn degrees_after(degrees: Seq<usize>, increases: Seq<(Node, Node)>, k: nat) -> Seq<
    usize,
>
    decreases k,
{
    if k == 0 {
        degrees
    } else {
        let d = degrees_after(degrees, increases, (k - 1) as nat);
        let (node, inc) = increases[k - 1];
        d.update(node as int, (d[node as int] + inc) as usize)
    }
}

proof fn lemma_total_prefix(s: Seq<(Node, Node)>, i: int)
    requires
        0 <= i <= s.len(),
    ensures
        increase_total(s.subrange(0, i)) <= increase_total(s),
        i < s.len() ==> increase_total(s.subrange(0, i + 1)) == increase_total(s.subrange(0, i))
            + s[i].1,
    decreases s.len(),
{
    if i < s.len() {
        assert(s.subrange(0, i + 1).drop_last() =~= s.subrange(0, i));
        lemma_total_prefix(s.drop_last(), i);
        if i < s.len() - 1 {
            assert(s.drop_last().subrange(0, i) =~= s.subrange(0, i));
            assert(s.drop_last().subrange(0, i + 1) =~= s.subrange(0, i + 1));
        } else {
            assert(s.drop_last() =~= s.subrange(0, i));
        }
    } else {
        assert(s.subrange(0, i) =~= s);
    }
}

/// Degree and replica count of every node, the largest degree, and the
/// sum of the degrees.
pub struct NodeTable {
    degrees: Vec<Node>,
    counts: Vec<Node>,
    max_degree: Node,
    degree_sum: usize,
}

impl NodeTable {
    pub closed spec fn spec_degrees(&self) -> Seq<Node> {
        self.degrees@
    }

    pub closed spec fn spec_counts(&self) -> Seq<Node> {
        self.counts@
    }

    pub closed spec fn spec_max_degree(&self) -> Node {
        self.max_degree
    }

    pub closed spec fn spec_degree_sum(&self) -> usize {
        self.degree_sum
    }

    /// One degree and one count per node, no degree above the recorded
    /// maximum, and the recorded sum of degrees. A node's count is the
    /// number of its replicas: zero until it is first inserted.
    pub open spec fn wf(&self) -> bool {
        &&& self.spec_degrees().len() == self.spec_counts().len()
        &&& self.spec_degree_sum() == seq_sum(self.spec_degrees())
        &&& forall|u: int|
            0 <= u < self.spec_degrees().len() ==> self.spec_degrees()[u] <= self.spec_max_degree()
    }

    /// A table of `n` nodes of degree zero, none of them inserted yet.
    pub fn new(n: usize) -> (r: Self)
        ensures
            r.wf(),
            r.spec_degrees() == Seq::new(n as nat, |i: int| 0usize),
            r.spec_counts() == Seq::new(n as nat, |i: int| 0usize),
            r.spec_max_degree() == 0,
            seq_sum(r.spec_degrees()) == 0,
    {
        let mut degrees: Vec<Node> = Vec::new();
        let mut counts: Vec<Node> = Vec::new();
        let mut i: usize = 0;
        while i < n
            invariant
                i <= n,
                degrees@ == Seq::new(i as nat, |j: int| 0usize),
                counts@ == Seq::new(i as nat, |j: int| 0usize),
            decreases n - i,
        {
            degrees.push(0);
            counts.push(0);
            i = i + 1;
            assert(degrees@ =~= Seq::new(i as nat, |j: int| 0usize));
            assert(counts@ =~= Seq::new(i as nat, |j: int| 0usize));
        }
        proof {
            lemma_seq_sum_zeros(n as nat);
        }
        NodeTable { degrees, counts, max_degree: 0, degree_sum: 0 }
    }

    /// The sum of all degrees.
    pub fn degree_sum(&self) -> (r: usize)
        requires
            self.wf(),
        ensures
            r == seq_sum(self.spec_degrees()),
    {
        self.degree_sum
    }

    pub fn len(&self) -> (r: usize)
        ensures
            r == self.spec_degrees().len(),
    {
        self.degrees.len()
    }

    pub fn degree(&self, node: Node) -> (r: Node)
        requires
            node < self.spec_degrees().len(),
        ensures
            r == self.spec_degrees()[node as int],
    {
        self.degrees[node]
    }

    pub fn count(&self, node: Node) -> (r: Node)
        requires
            node < self.spec_counts().len(),
        ensures
            r == self.spec_counts()[node as int],
    {
        self.counts[node]
    }

    pub fn max_degree(&self) -> (r: Node)
        ensures
            r == self.spec_max_degree(),
    {
        self.max_degree
    }

    /// The degree of every node, by index.
    pub fn degrees(&self) -> (r: Vec<Node>)
        ensures
            r@ == self.spec_degrees(),
    {
        self.degrees.clone()
    }

    /// Sets the degree of `node`, raises the maximum to it, and returns the
    /// degree it had.
    pub fn set_degree(&mut self, node: Node, degree: Node) -> (r: Node)
        requires
            old(self).wf(),
            node < old(self).spec_degrees().len(),
            seq_sum(old(self).spec_degrees()) - old(self).spec_degrees()[node as int] + degree
                <= usize::MAX,
        ensures
            final(self).wf(),
            r == old(self).spec_degrees()[node as int],
            final(self).spec_degrees() == old(self).spec_degrees().update(node as int, degree),
            final(self).spec_counts() == old(self).spec_counts(),
            final(self).spec_max_degree() == if degree > old(self).spec_max_degree() {
                degree
            } else {
                old(self).spec_max_degree()
            },
            seq_sum(final(self).spec_degrees()) == seq_sum(old(self).spec_degrees()) - r + degree,
    {
        let old_degree = self.degrees[node];
        proof {
            lemma_entry_le_sum(old(self).spec_degrees(), node as int);
            lemma_seq_sum_update(old(self).spec_degrees(), node as int, degree);
        }
        self.degrees[node] = degree;
        if degree > self.max_degree {
            self.max_degree = degree;
        }
        self.degree_sum = self.degree_sum - old_degree + degree;
        old_degree
    }

    /// Adds `degree_increase` to the degree of `node`, raises the maximum
    /// to the new degree, and returns the degree it had.
    pub fn fetch_add_degree(&mut self, node: Node, degree_increase: Node) -> (r: Node)
        requires
            old(self).wf(),
            node < old(self).spec_degrees().len(),
            seq_sum(old(self).spec_degrees()) + degree_increase <= usize::MAX,
        ensures
            final(self).wf(),
            r == old(self).spec_degrees()[node as int],
            final(self).spec_degrees() == old(self).spec_degrees().update(
                node as int,
                (r + degree_increase) as usize,
            ),
            final(self).spec_counts() == old(self).spec_counts(),
            final(self).spec_max_degree() == if r + degree_increase > old(self).spec_max_degree() {
                (r + degree_increase) as usize
            } else {
                old(self).spec_max_degree()
            },
            seq_sum(final(self).spec_degrees()) == seq_sum(old(self).spec_degrees())
                + degree_increase,
            forall|u: int|
                0 <= u < old(self).spec_degrees().len() ==> old(self).spec_degrees()[u]
                    <= #[trigger] final(self).spec_degrees()[u],
    {
        let old_degree = self.degrees[node];
        proof {
            lemma_entry_le_sum(old(self).spec_degrees(), node as int);
        }
        self.set_degree(node, old_degree + degree_increase);
        old_degree
    }

    /// Applies the degree increases of an epoch's commit in order, and
    /// returns for each the degree its node had just before it. The sum of
    /// the degrees grows by the sum of the increases.
    pub fn commit_degree_increases(&mut self, increases: &[(Node, Node)]) -> (r: Vec<Node>)
        requires
            old(self).wf(),
            forall|i: int|
                0 <= i < increases@.len() ==> #[trigger] increases@[i].0 < old(
                    self,
                ).spec_degrees().len(),
            seq_sum(old(self).spec_degrees()) + increase_total(increases@) <= usize::MAX,
        ensures
            final(self).wf(),
            final(self).spec_degrees() == degrees_after(
                old(self).spec_degrees(),
                increases@,
                increases@.len(),
            ),
            seq_sum(final(self).spec_degrees()) == seq_sum(old(self).spec_degrees())
                + increase_total(increases@),
            final(self).spec_counts() == old(self).spec_counts(),
            r@.len() == increases@.len(),
            forall|i: int|
                0 <= i < r@.len() ==> #[trigger] r@[i] == degrees_after(
                    old(self).spec_degrees(),
                    increases@,
                    i as nat,
                )[increases@[i].0 as int],
            forall|u: int|
                0 <= u < old(self).spec_degrees().len() ==> old(self).spec_degrees()[u]
                    <= #[trigger] final(self).spec_degrees()[u],
    {
        let ghost d0 = self.spec_degrees();
        let ghost s0 = seq_sum(d0);
        let mut old_degrees: Vec<Node> = Vec::new();
        let mut i: usize = 0;
        while i < increases.len()
            invariant
                self.wf(),
                i <= increases@.len(),
                self.spec_degrees().len() == d0.len(),
                self.spec_counts() == old(self).spec_counts(),
                d0 == old(self).spec_degrees(),
                s0 == seq_sum(d0),
                forall|j: int|
                    0 <= j < increases@.len() ==> #[trigger] increases@[j].0 < d0.len(),
                s0 + increase_total(increases@) <= usize::MAX,
                self.spec_degrees() == degrees_after(d0, increases@, i as nat),
                seq_sum(self.spec_degrees()) == s0 + increase_total(increases@.subrange(0, i as int)),
                old_degrees@.len() == i,
                forall|j: int|
                    0 <= j < i ==> #[trigger] old_degrees@[j] == degrees_after(
                        d0,
                        increases@,
                        j as nat,
                    )[increases@[j].0 as int],
                forall|u: int| 0 <= u < d0.len() ==> d0[u] <= #[trigger] self.spec_degrees()[u],
            decreases increases@.len() - i,
        {
            let (node, degree_increase) = increases[i];
            proof {
                lemma_total_prefix(increases@, i as int);
                lemma_total_prefix(increases@, i + 1);
                assert(increases@[i as int] == (node, degree_increase));
            }
            let d = self.fetch_add_degree(node, degree_increase);
            old_degrees.push(d);
            i = i + 1;
            proof {
                assert(self.spec_degrees() =~= degrees_after(d0, increases@, i as nat));
            }
        }
        proof {
            assert(increases@.subrange(0, increases@.len() as int) =~= increases@);
        }
        old_degrees
    }

    /// Raises the replica count of `node` to `target` where it is below,
    /// returning the count it had; `None`, with no change, otherwise.
    pub fn try_raise_count(&mut self, node: Node, target: Node) -> (r: Option<Node>)
        requires
            old(self).wf(),
            node < old(self).spec_counts().len(),
        ensures
            final(self).wf(),
            final(self).spec_degrees() == old(self).spec_degrees(),
            final(self).spec_max_degree() == old(self).spec_max_degree(),
            old(self).spec_counts()[node as int] < target ==> r == Some(
                old(self).spec_counts()[node as int],
            ) && final(self).spec_counts() == old(self).spec_counts().update(node as int, target),
            old(self).spec_counts()[node as int] >= target ==> r is None && final(self).spec_counts()
                == old(self).spec_counts(),
            forall|u: int|
                0 <= u < old(self).spec_counts().len() ==> old(self).spec_counts()[u]
                    <= #[trigger] final(self).spec_counts()[u],
    {
        let old_count = self.counts[node];
        if old_count < target {
            self.counts[node] = target;
            Some(old_count)
        } else {
            None
        }
    }
}

/// Appends copies of `node` to a proposal list until the node has `target`
/// replicas in it, given that it has `count`; returns the new replica count.
/// A node never loses replicas.
pub fn raise_replicas(proposal_list: &mut Vec<Node>, node: Node, count: usize, target: usize) -> (r:
    usize)
    requires
        count < target ==> old(proposal_list)@.len() + (target - count) <= usize::MAX,
    ensures
        r == if count < target {
            target
        } else {
            count
        },
        final(proposal_list)@ == old(proposal_list)@ + Seq::new((r - count) as nat, |i: int| node),
{
    let ghost before = proposal_list@;
    let mut c = count;
    while c < target
        invariant
            count <= c,
            count < target ==> c <= target,
            count >= target ==> c == count,
            proposal_list@ == before + Seq::new((c - count) as nat, |i: int| node),
        decreases target - c,
    {
        proposal_list.push(node);
        c = c + 1;
        assert(proposal_list@ =~= before + Seq::new((c - count) as nat, |i: int| node));
    }
    c
}

} // verus!
