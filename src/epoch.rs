//! The integer bookkeeping of a worker's epochs: which range of new nodes
//! an epoch covers, which samples survive once its end is known, and by how
//! much each node's degree grows when the epoch commits.

use crate::wrappers::{count_values, map_entries};
use crate::Node;
use vstd::prelude::*;

verus! {

/// How many of `nodes` lie before the epoch's last node, i.e. `u + 1 < epoch_end`.
pub open spec fn num_kept(nodes: Seq<Node>, epoch_end: Node) -> nat
    decreases nodes.len(),
{
    if nodes.len() == 0 {
        0
    } else {
        num_kept(nodes.drop_last(), epoch_end) + if nodes.last() + 1 < epoch_end {
            1nat
        } else {
            0nat
        }
    }
}

proof fn lemma_num_kept_bound(nodes: Seq<Node>, epoch_end: Node)
    ensures
        num_kept(nodes, epoch_end) <= nodes.len(),
    decreases nodes.len(),
{
    if nodes.len() > 0 {
        lemma_num_kept_bound(nodes.drop_last(), epoch_end);
    }
}

/// Drops the samples of the new nodes from the epoch's last node on. As
/// many new nodes are kept, from the front, as lie before that node, and
/// `initial_degree` hosts for each of them.
pub fn discard_beyond_epoch(
    new_nodes: &mut Vec<Node>,
    hosts: &mut Vec<Node>,
    epoch_end: Node,
    initial_degree: Node,
)
    requires
        old(hosts)@.len() == old(new_nodes)@.len() * initial_degree,
    ensures
        ({
            let kept = num_kept(old(new_nodes)@, epoch_end);
            &&& final(new_nodes)@ == old(new_nodes)@.subrange(0, kept as int)
            &&& final(hosts)@ == old(hosts)@.subrange(0, kept * initial_degree)
            &&& final(hosts)@.len() == final(new_nodes)@.len() * initial_degree
        }),
{
    let ghost nodes0 = new_nodes@;
    let mut num_keep_nodes: usize = 0;
    let mut i: usize = 0;
    while i < new_nodes.len()
        invariant
            new_nodes@ == nodes0,
            i <= nodes0.len(),
            num_keep_nodes == num_kept(nodes0.subrange(0, i as int), epoch_end),
            num_keep_nodes <= i,
        decreases nodes0.len() - i,
    {
        assert(nodes0.subrange(0, i + 1).drop_last() =~= nodes0.subrange(0, i as int));
        if new_nodes[i] < epoch_end && new_nodes[i] + 1 < epoch_end {
            num_keep_nodes = num_keep_nodes + 1;
        }
        i = i + 1;
    }
    assert(nodes0.subrange(0, nodes0.len() as int) =~= nodes0);
    // bounds the number of hosts by `usize::MAX`
    let _hosts_len = hosts.len();
    proof {
        lemma_num_kept_bound(nodes0, epoch_end);
        assert(num_keep_nodes * initial_degree <= nodes0.len() * initial_degree) by (nonlinear_arith)
            requires
                num_keep_nodes <= nodes0.len(),
        ;
    }
    hosts.truncate(num_keep_nodes * initial_degree);
    new_nodes.truncate(num_keep_nodes);
}

/// The sum of the increases in `r`.
pub open spec fn increase_total(r: Seq<(Node, Node)>) -> int
    decreases r.len(),
{
    if r.len() == 0 {
        0
    } else {
        increase_total(r.drop_last()) + r.last().1
    }
}

/// The occurrences in `s` of the nodes of `e`, summed over `e`.
spec fn count_sum(e: Seq<(Node, Node)>, s: Seq<Node>) -> int
    decreases e.len(),
{
    if e.len() == 0 {
        0
    } else {
        count_sum(e.drop_last(), s) + s.to_multiset().count(e.last().0)
    }
}

/// How many entries of `e` are about node `x`.
spec fn occurrences(e: Seq<(Node, Node)>, x: Node) -> int
    decreases e.len(),
{
    if e.len() == 0 {
        0
    } else {
        occurrences(e.drop_last(), x) + if e.last().0 == x {
            1int
        } else {
            0int
        }
    }
}

spec fn distinct_nodes(e: Seq<(Node, Node)>) -> bool {
    forall|i: int, j: int| 0 <= i < j < e.len() ==> #[trigger] e[i].0 != #[trigger] e[j].0
}

proof fn lemma_count_sum_push(e: Seq<(Node, Node)>, s: Seq<Node>, h: Node)
    ensures
        count_sum(e, s.push(h)) == count_sum(e, s) + occurrences(e, h),
    decreases e.len(),
{
    broadcast use vstd::seq_lib::group_to_multiset_ensures;
    broadcast use vstd::multiset::group_multiset_axioms;

    if e.len() > 0 {
        lemma_count_sum_push(e.drop_last(), s, h);
    }
}

proof fn lemma_count_sum_empty(e: Seq<(Node, Node)>, s: Seq<Node>)
    requires
        s.len() == 0,
    ensures
        count_sum(e, s) == 0,
    decreases e.len(),
{
    broadcast use vstd::seq_lib::group_to_multiset_ensures;

    if e.len() > 0 {
        assert(!s.contains(e.last().0));
        lemma_count_sum_empty(e.drop_last(), s);
    }
}

proof fn lemma_occurrences(e: Seq<(Node, Node)>, x: Node)
    requires
        distinct_nodes(e),
    ensures
        (exists|i: int| 0 <= i < e.len() && e[i].0 == x) ==> occurrences(e, x) == 1,
        !(exists|i: int| 0 <= i < e.len() && e[i].0 == x) ==> occurrences(e, x) == 0,
    decreases e.len(),
{
    if e.len() > 0 {
        let d = e.drop_last();
        lemma_occurrences(d, x);
        if e.last().0 == x {
            assert forall|i: int| 0 <= i < d.len() implies d[i].0 != x by {
                assert(e[i] == d[i]);
                assert(e[e.len() - 1].0 == x);
            }
        } else if exists|i: int| 0 <= i < e.len() && e[i].0 == x {
            let i = choose|i: int| 0 <= i < e.len() && e[i].0 == x;
            assert(d[i].0 == x);
        } else {
            assert forall|i: int| 0 <= i < d.len() implies d[i].0 != x by {
                assert(e[i] == d[i]);
            }
        }
    }
}

/// Distinct nodes that cover every element of `s` count all of `s`.
proof fn lemma_count_sum_covers(e: Seq<(Node, Node)>, s: Seq<Node>)
    requires
        distinct_nodes(e),
        forall|h: Node| s.contains(h) ==> exists|i: int| 0 <= i < e.len() && e[i].0 == h,
    ensures
        count_sum(e, s) == s.len(),
    decreases s.len(),
{
    if s.len() == 0 {
        lemma_count_sum_empty(e, s);
    } else {
        let t = s.drop_last();
        let h = s.last();
        assert(t.push(h) =~= s);
        assert forall|x: Node| t.contains(x) implies exists|i: int|
            0 <= i < e.len() && e[i].0 == x by {
            let k = choose|k: int| 0 <= k < t.len() && t[k] == x;
            assert(s[k] == x);
            assert(s.contains(x));
        }
        lemma_count_sum_covers(e, t);
        lemma_count_sum_push(e, t, h);
        assert(s[s.len() - 1] == h);
        assert(s.contains(h));
        lemma_occurrences(e, h);
    }
}

/// Entries that carry the occurrence counts of their nodes sum to `count_sum`.
proof fn lemma_total_is_count_sum(e: Seq<(Node, Node)>, s: Seq<Node>)
    requires
        forall|i: int| 0 <= i < e.len() ==> #[trigger] e[i].1 == s.to_multiset().count(e[i].0),
    ensures
        increase_total(e) == count_sum(e, s),
    decreases e.len(),
{
    if e.len() > 0 {
        let d = e.drop_last();
        assert forall|i: int| 0 <= i < d.len() implies #[trigger] d[i].1 == s.to_multiset().count(
            d[i].0,
        ) by {
            assert(e[i] == d[i]);
        }
        lemma_total_is_count_sum(d, s);
        assert(e[e.len() - 1] == e.last());
    }
}

proof fn lemma_total_concat(a: Seq<(Node, Node)>, b: Seq<(Node, Node)>)
    ensures
        increase_total(a + b) == increase_total(a) + increase_total(b),
    decreases b.len(),
{
    if b.len() == 0 {
        assert(a + b =~= a);
    } else {
        assert((a + b).drop_last() =~= a + b.drop_last());
        lemma_total_concat(a, b.drop_last());
    }
}

proof fn lemma_total_uniform(nodes: Seq<Node>, n: nat, d: Node)
    requires
        n <= nodes.len(),
    ensures
        increase_total(Seq::new(n, |k: int| (nodes[k], d))) == n * d,
    decreases n,
{
    let sq = Seq::new(n, |k: int| (nodes[k], d));
    if n > 0 {
        let m = (n - 1) as nat;
        let shorter = Seq::new(m, |k: int| (nodes[k], d));
        assert(sq.drop_last() =~= shorter);
        lemma_total_uniform(nodes, m, d);
        assert(sq.last().1 == d);
        assert(increase_total(sq) == increase_total(shorter) + d);
        assert(n * d == m * d + d) by (nonlinear_arith)
            requires
                m == n - 1,
        ;
    } else {
        assert(n * d == 0) by (nonlinear_arith)
            requires
                n == 0,
        ;
    }
}

/// The degree increases that an epoch commits: each new node gains
/// `initial_degree`, in the order given; after them, each distinct host
/// gains the number of times it was linked, in no particular order.
pub fn degree_increases(new_nodes: &[Node], hosts: &[Node], initial_degree: Node) -> (r: Vec<
    (Node, Node),
>)
    ensures
        r@.len() >= new_nodes@.len(),
        forall|i: int| 0 <= i < new_nodes@.len() ==> #[trigger] r@[i] == (new_nodes@[i], initial_degree),
        forall|i: int|
            new_nodes@.len() <= i < r@.len() ==> hosts@.contains(#[trigger] r@[i].0) && r@[i].1
                == hosts@.to_multiset().count(r@[i].0),
        forall|i: int, j: int|
            new_nodes@.len() <= i < j < r@.len() ==> #[trigger] r@[i].0 != #[trigger] r@[j].0,
        forall|h: Node|
            hosts@.contains(h) ==> exists|i: int| new_nodes@.len() <= i < r@.len() && r@[i].0 == h,
        increase_total(r@) == new_nodes@.len() * initial_degree + hosts@.len(),
        hosts@.len() == new_nodes@.len() * initial_degree ==> increase_total(r@) == 2
            * initial_degree * new_nodes@.len(),
{
    let counts = count_values(hosts);
    let ghost cm = counts@;
    let host_degree_increases = map_entries(counts);
    let mut r: Vec<(Node, Node)> = Vec::new();
    let mut i: usize = 0;
    while i < new_nodes.len()
        invariant
            i <= new_nodes@.len(),
            r@ == Seq::new(i as nat, |k: int| (new_nodes@[k], initial_degree)),
        decreases new_nodes@.len() - i,
    {
        r.push((new_nodes[i], initial_degree));
        i = i + 1;
        assert(r@ =~= Seq::new(i as nat, |k: int| (new_nodes@[k], initial_degree)));
    }
    let n = new_nodes.len();
    let ghost e = host_degree_increases@;
    let mut j: usize = 0;
    while j < host_degree_increases.len()
        invariant
            n == new_nodes@.len(),
            e == host_degree_increases@,
            j <= e.len(),
            r@ == Seq::new(n as nat, |k: int| (new_nodes@[k], initial_degree)) + e.subrange(
                0,
                j as int,
            ),
        decreases e.len() - j,
    {
        r.push(host_degree_increases[j]);
        j = j + 1;
        assert(r@ =~= Seq::new(n as nat, |k: int| (new_nodes@[k], initial_degree)) + e.subrange(
            0,
            j as int,
        ));
    }
    proof {
        assert(e.subrange(0, e.len() as int) =~= e);
        assert forall|i: int| 0 <= i < n implies #[trigger] r@[i] == (new_nodes@[i], initial_degree) by {}
        assert forall|i: int, k: int| n <= i < k < r@.len() implies #[trigger] r@[i].0
            != #[trigger] r@[k].0 by {
            assert(r@[i] == e[i - n]);
            assert(r@[k] == e[k - n]);
        }
        assert forall|i: int| n <= i < r@.len() implies hosts@.contains(#[trigger] r@[i].0)
            && r@[i].1 == hosts@.to_multiset().count(r@[i].0) by {
            assert(r@[i] == e[i - n]);
        }
        assert forall|h: Node| hosts@.contains(h) implies exists|i: int|
            n <= i < r@.len() && r@[i].0 == h by {
            let p = choose|p: int| 0 <= p < e.len() && e[p].0 == h;
            assert(r@[n + p] == e[p]);
        }
        let a = Seq::new(n as nat, |k: int| (new_nodes@[k], initial_degree));
        assert(r@ == a + e);
        lemma_total_concat(a, e);
        lemma_total_uniform(new_nodes@, n as nat, initial_degree);
        assert forall|i: int, k: int| 0 <= i < k < e.len() implies #[trigger] e[i].0
            != #[trigger] e[k].0 by {}
        assert forall|i: int| 0 <= i < e.len() implies #[trigger] e[i].1
            == hosts@.to_multiset().count(e[i].0) by {
            assert(cm.contains_key(e[i].0));
        }
        lemma_total_is_count_sum(e, hosts@);
        lemma_count_sum_covers(e, hosts@);
        assert(n * initial_degree == new_nodes@.len() * initial_degree);
        assert(n * initial_degree + n * initial_degree == 2 * initial_degree * n) by (nonlinear_arith);
    }
    r
}

/// A worker's position in the sequence of epochs: the id of the current
/// epoch and the range of new nodes it covers.
pub struct EpochCursor {
    epoch_id: usize,
    start: Node,
    end: Node,
}

impl EpochCursor {
    pub closed spec fn spec_epoch_id(&self) -> usize {
        self.epoch_id
    }

    /// The current epoch's nodes, `start..end`.
    pub closed spec fn spec_range(&self) -> (Node, Node) {
        (self.start, self.end)
    }

    /// Before the first epoch: the seed nodes count as epoch zero.
    pub fn new(num_seed_nodes: Node) -> (r: Self)
        ensures
            r.spec_epoch_id() == 0,
            r.spec_range() == (0usize, num_seed_nodes),
    {
        EpochCursor { epoch_id: 0, start: 0, end: num_seed_nodes }
    }

    pub fn epoch_id(&self) -> (r: usize)
        ensures
            r == self.spec_epoch_id(),
    {
        self.epoch_id
    }

    pub fn start(&self) -> (r: Node)
        ensures
            r == self.spec_range().0,
    {
        self.start
    }

    pub fn end(&self) -> (r: Node)
        ensures
            r == self.spec_range().1,
    {
        self.end
    }

    /// Starts the next epoch where the previous one ended, up to `upper`.
    pub fn begin_epoch(&mut self, upper: Node)
        requires
            old(self).spec_epoch_id() < usize::MAX,
        ensures
            final(self).spec_epoch_id() == old(self).spec_epoch_id() + 1,
            final(self).spec_range() == (old(self).spec_range().1, upper),
    {
        self.start = self.end;
        self.end = upper;
        self.epoch_id = self.epoch_id + 1;
    }

    /// The node before the epoch, whose hosts depend on the previous
    /// epoch's commits: the leader (rank zero) draws them from the second
    /// epoch on.
    pub fn seam_node(&self, rank: usize) -> (r: Option<Node>)
        ensures
            r == if rank == 0 && self.spec_epoch_id() > 1 && self.spec_range().0 > 0 {
                Some((self.spec_range().0 - 1) as Node)
            } else {
                None::<Node>
            },
    {
        if rank == 0 && self.epoch_id > 1 && self.start > 0 {
            Some(self.start - 1)
        } else {
            None
        }
    }

    /// The nodes that worker `rank` of `num_threads` samples in this epoch,
    /// as first node and bound: every `num_threads`-th node from
    /// `start + rank`, before the epoch's last node.
    pub fn phase1_nodes(&self, rank: usize) -> (r: (Node, Node))
        requires
            self.spec_range().0 + rank <= usize::MAX,
        ensures
            r.0 == self.spec_range().0 + rank,
            r.1 == if self.spec_range().1 > 0 {
                self.spec_range().1 - 1
            } else {
                0
            },
    {
        let stop = if self.end > 0 {
            self.end - 1
        } else {
            0
        };
        (self.start + rank, stop)
    }

    /// Fixes the end of the epoch once the cutoff is agreed on, and tells
    /// whether the generation is complete, i.e. the end reached `num_total_nodes`.
    pub fn finish_epoch(&mut self, end: Node, num_total_nodes: Node) -> (done: bool)
        ensures
            final(self).spec_epoch_id() == old(self).spec_epoch_id(),
            final(self).spec_range() == (old(self).spec_range().0, end),
            done == (end >= num_total_nodes),
    {
        self.end = end;
        end >= num_total_nodes
    }
}

} // verus!
