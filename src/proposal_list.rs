//! The proposal list of the parallel sampler: a buffer of node ids in which
//! each node is repeated about in proportion to its weight, so that a
//! uniform draw from the buffer approximates a weighted draw of a node.
//!
//! Writers reserve blocks of cells at the end of the buffer and fill them;
//! a writer that stops in the middle of a block records the unused rest as
//! an unfinished range. Unused cells hold `UNINITIALIZED`. Compaction moves
//! nodes from the right end into those ranges until the used prefix of the
//! buffer holds no unused cell.

use crate::wrappers::{lemma_permutation_keeps_distinct, pair_le, sort_pairs};
use crate::Node;
use vstd::prelude::*;

verus! {

/// Marks a cell of the proposal list that holds no node.
pub const UNINITIALIZED: Node = usize::MAX;

/// Number of cells that a writer reserves at a time.
pub const BLOCK_SIZE: usize = 128;

/// Why a write into the proposal list was refused.
#[derive(Clone, Copy, Debug, PartialEq, Eq, Structural)]
pub enum ProposalError {
    /// The write needs more cells than the list has left.
    CapacityExceeded,
}

/// Whether cell `i` lies in the half-open range `r`.
pub open spec fn in_block(r: (usize, usize), i: int) -> bool {
    r.0 <= i && i < r.1
}

/// Non-empty ranges of the sequence do not overlap.
pub open spec fn blocks_disjoint(blocks: Seq<(usize, usize)>) -> bool {
    forall|k: int, l: int|
        #![trigger blocks[k], blocks[l]]
        0 <= k < blocks.len() && 0 <= l < blocks.len() && k != l && blocks[k].0 < blocks[k].1
            && blocks[l].0 < blocks[l].1 ==> blocks[k].1 <= blocks[l].0 || blocks[l].1 <= blocks[k].0
}

/// Below `next_free`, exactly the cells inside one of the `gaps` are unused.
pub open spec fn gap_layout(cells: Seq<Node>, next_free: int, gaps: Seq<(usize, usize)>) -> bool {
    &&& forall|k: int| 0 <= k < gaps.len() ==> gaps[k].0 <= gaps[k].1 && gaps[k].1 <= next_free
    &&& blocks_disjoint(gaps)
    &&& forall|i: int|
        0 <= i < next_free ==> (cells[i] == UNINITIALIZED <==> exists|k: int|
            0 <= k < gaps.len() && #[trigger] in_block(gaps[k], i))
}

/// A sequence that holds used cells below `end` and unused ones from there
/// on has `len - end` unused cells.
proof fn lemma_unused_count(cells: Seq<Node>, end: int)
    requires
        0 <= end <= cells.len(),
        forall|i: int| 0 <= i < end ==> cells[i] != UNINITIALIZED,
        forall|i: int| end <= i < cells.len() ==> cells[i] == UNINITIALIZED,
    ensures
        cells.to_multiset().count(UNINITIALIZED) == cells.len() - end,
    decreases cells.len(),
{
    broadcast use vstd::seq_lib::group_to_multiset_ensures;
    broadcast use vstd::multiset::group_multiset_axioms;

    if cells.len() > 0 {
        let d = cells.drop_last();
        assert(d.push(cells.last()) =~= cells);
        if end == cells.len() {
            lemma_unused_count(d, end - 1);
            assert(cells[cells.len() - 1] != UNINITIALIZED);
        } else {
            lemma_unused_count(d, end);
            assert(cells[cells.len() - 1] == UNINITIALIZED);
        }
    }
}

/// The buffer of replicated node ids, with its allocation cursor.
pub struct ProposalList {
    proposal_list: Vec<Node>,
    begin_of_next_block: usize,
    unfinished_blocks: Vec<(usize, usize)>,
    producer_id: usize,
}

impl ProposalList {
    /// The cells of the buffer.
    pub closed spec fn cells(&self) -> Seq<Node> {
        self.proposal_list@
    }

    /// The first cell that no writer has reserved.
    pub closed spec fn next_free(&self) -> int {
        self.begin_of_next_block as int
    }

    /// The unfinished range that each writer recorded last, one slot per writer.
    pub closed spec fn unfinished(&self) -> Seq<(usize, usize)> {
        self.unfinished_blocks@
    }

    /// How many writers were created on this list.
    pub closed spec fn producers(&self) -> int {
        self.producer_id as int
    }

    /// The cursor lies inside the buffer, and no cell behind it is used.
    pub open spec fn wf(&self) -> bool {
        &&& self.next_free() <= self.cells().len()
        &&& self.cells().len() <= usize::MAX
        &&& forall|i: int|
            self.next_free() <= i < self.cells().len() ==> self.cells()[i] == UNINITIALIZED
    }

    /// The recorded unfinished ranges are exactly the unused cells below the cursor.
    pub open spec fn is_compactable(&self) -> bool {
        gap_layout(self.cells(), self.next_free(), self.unfinished())
    }

    /// The number of cells.
    pub fn capacity(&self) -> (r: usize)
        ensures
            r == self.cells().len(),
    {
        self.proposal_list.len()
    }

    /// The first cell that no writer has reserved.
    pub fn begin_of_next_block(&self) -> (r: usize)
        ensures
            r == self.next_free(),
    {
        self.begin_of_next_block
    }

    /// The content of cell `index`.
    pub fn cell(&self, index: usize) -> (r: Node)
        requires
            index < self.cells().len(),
        ensures
            r == self.cells()[index as int],
    {
        self.proposal_list[index]
    }

    /// A list of `size` cells plus two blocks for each of `num_threads`
    /// writers, all unused, with one unfinished-range slot per writer.
    pub fn new(size: usize, num_threads: usize) -> (r: Self)
        requires
            size + 2 * num_threads * BLOCK_SIZE <= usize::MAX,
        ensures
            r.wf(),
            r.cells() == Seq::new(
                (size + 2 * num_threads * BLOCK_SIZE) as nat,
                |i: int| UNINITIALIZED,
            ),
            r.next_free() == 0,
            r.unfinished() == Seq::new(num_threads as nat, |i: int| (0usize, 0usize)),
            r.producers() == 0,
    {
        let n: usize = size + 2 * num_threads * BLOCK_SIZE;
        let mut proposal_list: Vec<Node> = Vec::new();
        let mut i: usize = 0;
        while i < n
            invariant
                i <= n,
                proposal_list@ == Seq::new(i as nat, |j: int| UNINITIALIZED),
            decreases n - i,
        {
            proposal_list.push(UNINITIALIZED);
            i = i + 1;
            assert(proposal_list@ =~= Seq::new(i as nat, |j: int| UNINITIALIZED));
        }
        let mut unfinished_blocks: Vec<(usize, usize)> = Vec::new();
        let mut t: usize = 0;
        while t < num_threads
            invariant
                t <= num_threads,
                unfinished_blocks@ == Seq::new(t as nat, |j: int| (0usize, 0usize)),
            decreases num_threads - t,
        {
            unfinished_blocks.push((0, 0));
            t = t + 1;
            assert(unfinished_blocks@ =~= Seq::new(t as nat, |j: int| (0usize, 0usize)));
        }
        ProposalList { proposal_list, unfinished_blocks, begin_of_next_block: 0, producer_id: 0 }
    }

    /// Appends `count` copies of `node` at the cursor, without a writer.
    /// Refused, with no change, where the cells left do not suffice.
    pub fn unbuffered_push(&mut self, node: Node, count: usize) -> (r: Result<(), ProposalError>)
        requires
            old(self).wf(),
            node != UNINITIALIZED,
        ensures
            final(self).wf(),
            final(self).unfinished() == old(self).unfinished(),
            final(self).producers() == old(self).producers(),
            old(self).next_free() + count <= old(self).cells().len() ==> {
                &&& r is Ok
                &&& final(self).next_free() == old(self).next_free() + count
                &&& final(self).cells() == Seq::new(
                    old(self).cells().len(),
                    |i: int|
                        if old(self).next_free() <= i < old(self).next_free() + count {
                            node
                        } else {
                            old(self).cells()[i]
                        },
                )
            },
            old(self).next_free() + count > old(self).cells().len() ==> r == Err::<(), _>(
                ProposalError::CapacityExceeded,
            ) && *final(self) == *old(self),
            old(self).is_compactable() ==> final(self).is_compactable(),
    {
        if count > self.proposal_list.len() - self.begin_of_next_block {
            return Err(ProposalError::CapacityExceeded);
        }
        let ghost start = self.next_free();
        let ghost before = self.cells();
        let mut left: usize = count;
        while left > 0
            invariant
                self.wf(),
                self.cells().len() == before.len(),
                self.unfinished() == old(self).unfinished(),
                self.producers() == old(self).producers(),
                start + count <= before.len(),
                before.len() <= usize::MAX,
                left <= count,
                self.next_free() == start + (count - left),
                self.cells() == Seq::new(
                    before.len(),
                    |i: int|
                        if start <= i < self.next_free() {
                            node
                        } else {
                            before[i]
                        },
                ),
            decreases left,
        {
            let at = self.begin_of_next_block;
            self.proposal_list[at] = node;

            self.begin_of_next_block = at + 1;
            left = left - 1;
            assert(self.cells() =~= Seq::new(
                before.len(),
                |i: int|
                    if start <= i < self.next_free() {
                        node
                    } else {
                        before[i]
                    },
            ));
        }
        assert(self.cells() =~= Seq::new(
            before.len(),
            |i: int|
                if start <= i < start + count {
                    node
                } else {
                    before[i]
                },
        ));
        proof {
            if old(self).is_compactable() {
                let gaps = self.unfinished();
                assert forall|i: int| 0 <= i < self.next_free() implies (self.cells()[i]
                    == UNINITIALIZED <==> exists|k: int|
                    0 <= k < gaps.len() && #[trigger] in_block(gaps[k], i)) by {
                    if i >= start {
                        assert forall|k: int| 0 <= k < gaps.len() implies !in_block(
                            gaps[k],
                            i,
                        ) by {}
                    }
                }
            }
        }
        Ok(())
    }

    /// Whether the recorded unfinished ranges are exactly the unused cells
    /// below the cursor, which compaction needs.
    pub fn check_unfinished_ranges(&self) -> (r: bool)
        requires
            self.wf(),
        ensures
            r == self.is_compactable(),
    {
        let blocks = &self.unfinished_blocks;
        let nf = self.begin_of_next_block;
        let ghost g = self.unfinished();
        let mut k: usize = 0;
        while k < blocks.len()
            invariant
                g == blocks@,
                g == self.unfinished(),
                nf == self.next_free(),
                k <= g.len(),
                forall|l: int| 0 <= l < k ==> g[l].0 <= g[l].1 && g[l].1 <= nf,
            decreases g.len() - k,
        {
            let (b, e) = blocks[k];
            if b > e || e > nf {
                assert(!self.is_compactable()) by {
                    assert(g == self.unfinished());
                    assert(g[k as int] == (b, e));
                }
                return false;
            }
            k = k + 1;
        }
        let mut a: usize = 0;
        while a < blocks.len()
            invariant
                g == blocks@,
                g == self.unfinished(),
                a <= g.len(),
                forall|x: int, y: int|
                    #![trigger g[x], g[y]]
                    0 <= x < a && 0 <= y < g.len() && x != y && g[x].0 < g[x].1 && g[y].0 < g[y].1
                        ==> g[x].1 <= g[y].0 || g[y].1 <= g[x].0,
            decreases g.len() - a,
        {
            let mut c: usize = 0;
            while c < blocks.len()
                invariant
                    g == blocks@,
                g == self.unfinished(),
                    a < g.len(),
                    c <= g.len(),
                    forall|x: int, y: int|
                        #![trigger g[x], g[y]]
                        0 <= x < a && 0 <= y < g.len() && x != y && g[x].0 < g[x].1 && g[y].0
                            < g[y].1 ==> g[x].1 <= g[y].0 || g[y].1 <= g[x].0,
                    forall|y: int|
                        #![trigger g[y]]
                        0 <= y < c && a != y && g[a as int].0 < g[a as int].1 && g[y].0 < g[y].1
                            ==> g[a as int].1 <= g[y].0 || g[y].1 <= g[a as int].0,
                decreases g.len() - c,
            {
                let (b1, e1) = blocks[a];
                let (b2, e2) = blocks[c];
                if a != c && b1 < e1 && b2 < e2 && !(e1 <= b2 || e2 <= b1) {
                    assert(!self.is_compactable()) by {
                        assert(g == self.unfinished());
                        assert(g[a as int] == (b1, e1));
                        assert(g[c as int] == (b2, e2));
                        assert(!blocks_disjoint(g));
                    }
                    return false;
                }
                c = c + 1;
            }
            a = a + 1;
        }
        let mut i: usize = 0;
        while i < nf
            invariant
                g == blocks@,
                g == self.unfinished(),
                nf == self.next_free(),
                self.wf(),
                i <= nf,
                forall|j: int|
                    0 <= j < i ==> (self.cells()[j] == UNINITIALIZED <==> exists|l: int|
                        0 <= l < g.len() && #[trigger] in_block(g[l], j)),
            decreases nf - i,
        {
            let mut in_gap = false;
            let mut l: usize = 0;
            while l < blocks.len()
                invariant
                    g == blocks@,
                g == self.unfinished(),
                    l <= g.len(),
                    in_gap == exists|m: int| 0 <= m < l && #[trigger] in_block(g[m], i as int),
                decreases g.len() - l,
            {
                let (b, e) = blocks[l];
                if b <= i && i < e {
                    in_gap = true;
                }
                proof {
                    if !in_gap {
                        assert forall|m: int| 0 <= m < l + 1 implies !in_block(g[m], i as int) by {
                            if m == l {
                                assert(g[m] == (b, e));
                            }
                        }
                    } else if b <= i && i < e {
                        assert(in_block(g[l as int], i as int));
                    }
                }
                l = l + 1;
            }
            if (self.proposal_list[i] == UNINITIALIZED) != in_gap {
                assert(!self.is_compactable()) by {
                    assert(g == self.unfinished());
                    assert(l == g.len());
                }
                return false;
            }
            i = i + 1;
        }
        true
    }

    /// Moves nodes from the right end of the used prefix into the recorded
    /// unfinished ranges until no unused cell is left below the cursor, then
    /// sets the cursor to the end of the used cells and returns it. The nodes
    /// in the list stay the same, as a multiset.
    pub fn compact_unfinished_ranges(&mut self) -> (end: usize)
        requires
            old(self).wf(),
            old(self).is_compactable(),
        ensures
            final(self).wf(),
            end == final(self).next_free(),
            end <= old(self).next_free(),
            forall|i: int| 0 <= i < end ==> final(self).cells()[i] != UNINITIALIZED,
            final(self).cells().len() == old(self).cells().len(),
            final(self).cells().to_multiset() == old(self).cells().to_multiset(),
            end == old(self).cells().len() - old(self).cells().to_multiset().count(UNINITIALIZED),
            final(self).unfinished() == old(self).unfinished(),
            final(self).producers() == old(self).producers(),
            forall|i: int|
                0 <= i < old(self).cells().len() && (forall|k: int|
                    0 <= k < old(self).unfinished().len() && old(self).unfinished()[k].0 < old(
                        self,
                    ).unfinished()[k].1 ==> i < #[trigger] old(self).unfinished()[k].0)
                    ==> #[trigger] final(self).cells()[i] == old(self).cells()[i],
            (forall|k: int|
                0 <= k < old(self).unfinished().len() ==> #[trigger] old(self).unfinished()[k].0
                    >= old(self).unfinished()[k].1) ==> *final(self) == *old(self),
    {
        let ghost blocks = self.unfinished();
        let ghost nf = self.next_free();
        let mut gap_list: Vec<(usize, usize)> = Vec::new();
        let mut k: usize = 0;
        while k < self.unfinished_blocks.len()
            invariant
                *self == *old(self),
                blocks == self.unfinished(),
                blocks_disjoint(blocks),
                k <= blocks.len(),
                forall|a: int|
                    #![trigger gap_list@[a]]
                    0 <= a < gap_list@.len() ==> gap_list@[a].0 < gap_list@[a].1 && exists|j: int|
                        0 <= j < k && blocks[j] == gap_list@[a],
                forall|a: int, b: int|
                    #![trigger gap_list@[a], gap_list@[b]]
                    0 <= a < gap_list@.len() && 0 <= b < gap_list@.len() && a != b
                        ==> gap_list@[a].1 <= gap_list@[b].0 || gap_list@[b].1 <= gap_list@[a].0,
                forall|j: int|
                    0 <= j < k && blocks[j].0 < blocks[j].1 ==> gap_list@.contains(
                        #[trigger] blocks[j],
                    ),
            decreases blocks.len() - k,
        {
            let r = self.unfinished_blocks[k];
            if r.0 < r.1 {
                let ghost before = gap_list@;
                proof {
                    assert forall|a: int| 0 <= a < before.len() implies before[a].1 <= r.0
                        || r.1 <= before[a].0 by {
                        assert(gap_list@[a] == before[a]);
                        let j = choose|j: int| 0 <= j < k && blocks[j] == before[a];
                        assert(blocks[j] == before[a]);
                        assert(blocks[k as int] == r);
                    }
                }
                gap_list.push(r);
                proof {
                    assert forall|j: int|
                        0 <= j < k + 1 && blocks[j].0 < blocks[j].1 implies gap_list@.contains(
                        #[trigger] blocks[j],
                    ) by {
                        if j < k {
                            let a = choose|a: int| 0 <= a < before.len() && before[a] == blocks[j];
                            assert(gap_list@[a] == blocks[j]);
                        } else {
                            assert(gap_list@[before.len() as int] == blocks[j]);
                        }
                    }
                }
            }
            k = k + 1;
        }
        if gap_list.len() == 0 {
            proof {
                assert forall|i: int| 0 <= i < nf implies self.cells()[i] != UNINITIALIZED by {
                    if self.cells()[i] == UNINITIALIZED {
                        let j = choose|j: int| 0 <= j < blocks.len() && #[trigger] in_block(blocks[j], i);
                        assert(gap_list@.contains(blocks[j]));
                    }
                }
                lemma_unused_count(self.cells(), nf);
            }
            return self.begin_of_next_block;
        }
        let ghost unsorted = gap_list@;
        proof {
            assert forall|a: int, b: int| 0 <= a < b < unsorted.len() implies unsorted[a]
                != unsorted[b] by {
                assert(unsorted[a].0 < unsorted[a].1);
            }
        }
        sort_pairs(&mut gap_list);
        let ghost g = gap_list@;
        proof {
            broadcast use vstd::seq_lib::group_to_multiset_ensures;

            lemma_permutation_keeps_distinct(unsorted, g);
            assert forall|a: int, b: int| 0 <= a < b < g.len() implies g[a].1 <= g[b].0 by {
                assert(pair_le(g[a], g[b]));
                assert(g.contains(g[a]));
                assert(g.contains(g[b]));
                let p = choose|p: int| 0 <= p < unsorted.len() && unsorted[p] == g[a];
                let q = choose|q: int| 0 <= q < unsorted.len() && unsorted[q] == g[b];
                assert(unsorted[p].0 < unsorted[p].1);
                assert(unsorted[q].0 < unsorted[q].1);
            }
            assert forall|a: int| 0 <= a < g.len() implies g[a].0 < g[a].1 && g[a].1 <= nf
                && exists|j: int| 0 <= j < blocks.len() && blocks[j] == g[a] by {
                assert(g.contains(g[a]));
                let p = choose|p: int| 0 <= p < unsorted.len() && unsorted[p] == g[a];
                assert(unsorted[p].0 < unsorted[p].1);
                let j = choose|j: int| 0 <= j < blocks.len() && blocks[j] == unsorted[p];
                assert(blocks[j] == g[a]);
            }
            assert forall|i: int| 0 <= i < nf implies (self.cells()[i] == UNINITIALIZED
                <==> exists|a: int| 0 <= a < g.len() && #[trigger] in_block(g[a], i)) by {
                if self.cells()[i] == UNINITIALIZED {
                    let j = choose|j: int| 0 <= j < blocks.len() && #[trigger] in_block(blocks[j], i);
                    assert(unsorted.contains(blocks[j]));
                    assert(unsorted.to_multiset().count(blocks[j]) > 0);
                    assert(g.contains(blocks[j]));
                    let a = choose|a: int| 0 <= a < g.len() && g[a] == blocks[j];
                    assert(in_block(g[a], i));
                }
                if exists|a: int| 0 <= a < g.len() && #[trigger] in_block(g[a], i) {
                    let a = choose|a: int| 0 <= a < g.len() && #[trigger] in_block(g[a], i);
                    let j = choose|j: int| 0 <= j < blocks.len() && blocks[j] == g[a];
                    assert(in_block(blocks[j], i));
                }
            }
        }
        proof {
            assert(g[0].0 < g[0].1);
            let j0 = choose|j: int| 0 <= j < blocks.len() && blocks[j] == g[0];
            assert(blocks[j0].0 < blocks[j0].1);
        }
        let ghost cells_before = self.cells();
        let end = self.compact_from_lists(&gap_list);
        proof {
            lemma_unused_count(self.cells(), end as int);
            let j0 = choose|j: int| 0 <= j < blocks.len() && blocks[j] == g[0];
            assert forall|i: int|
                0 <= i < cells_before.len() && (forall|k: int|
                    0 <= k < blocks.len() && blocks[k].0 < blocks[k].1 ==> i
                        < #[trigger] blocks[k].0) implies #[trigger] self.cells()[i]
                == cells_before[i] by {
                assert(blocks[j0].0 < blocks[j0].1);
                assert(i < blocks[j0].0);
            }
        }
        end
    }

    /// Fills the `gaps`, which are sorted, disjoint and non-empty and are
    /// exactly the unused cells below the cursor: the hole furthest left
    /// takes the node furthest right until no hole lies before a node. Sets
    /// the cursor to the end of the used cells and returns it.
    fn compact_from_lists(&mut self, gaps: &Vec<(usize, usize)>) -> (end: usize)
        requires
            old(self).wf(),
            gaps@.len() > 0,
            forall|a: int, b: int| 0 <= a < b < gaps@.len() ==> gaps@[a].1 <= gaps@[b].0,
            forall|a: int|
                0 <= a < gaps@.len() ==> gaps@[a].0 < gaps@[a].1 && gaps@[a].1 <= old(self).next_free(),
            forall|i: int|
                0 <= i < old(self).next_free() ==> (old(self).cells()[i] == UNINITIALIZED
                    <==> exists|a: int| 0 <= a < gaps@.len() && #[trigger] in_block(gaps@[a], i)),
        ensures
            final(self).wf(),
            end == final(self).next_free(),
            end <= old(self).next_free(),
            forall|i: int| 0 <= i < end ==> final(self).cells()[i] != UNINITIALIZED,
            final(self).cells().len() == old(self).cells().len(),
            final(self).cells().to_multiset() == old(self).cells().to_multiset(),
            final(self).unfinished() == old(self).unfinished(),
            final(self).producers() == old(self).producers(),
            forall|i: int|
                0 <= i < gaps@[0].0 ==> #[trigger] final(self).cells()[i] == old(self).cells()[i],
    {
        let ghost g = gaps@;
        let ghost nf = self.next_free();
        let ghost cells0 = self.cells();
        let m = gaps.len();
        let mut lo: usize = gaps[0].0;
        let mut gi: usize = 0;
        let mut hi: usize = self.begin_of_next_block;
        let mut gk: usize = m;
        proof {
            assert forall|i: int| 0 <= i < lo implies self.cells()[i] != UNINITIALIZED by {
                if self.cells()[i] == UNINITIALIZED {
                    let a = choose|a: int| 0 <= a < g.len() && #[trigger] in_block(g[a], i);
                    if a > 0 {
                        assert(g[0].1 <= g[a].0);
                    }
                }
            }
        }
        while gi < gk
            invariant
                gaps@ == g,
                m == g.len(),
                self.wf(),
                self.next_free() == nf,
                self.cells().len() == cells0.len(),
                self.cells().to_multiset() == cells0.to_multiset(),
                self.unfinished() == old(self).unfinished(),
                self.producers() == old(self).producers(),
                forall|a: int, b: int| 0 <= a < b < g.len() ==> #[trigger] g[a].1 <= #[trigger] g[b].0,
                forall|a: int| 0 <= a < g.len() ==> #[trigger] g[a].0 < g[a].1 && g[a].1 <= nf,
                gi <= gk <= m,
                lo <= hi <= nf,
                forall|i: int| 0 <= i < lo ==> self.cells()[i] != UNINITIALIZED,
                forall|i: int| hi <= i < self.cells().len() ==> self.cells()[i] == UNINITIALIZED,
                forall|i: int|
                    lo <= i < hi ==> (self.cells()[i] == UNINITIALIZED <==> exists|a: int|
                        gi <= a < gk && #[trigger] in_block(g[a], i)),
                gi < gk ==> g[gi as int].0 <= lo && lo <= g[gi as int].1,
                gi < gk ==> g[gk - 1].1 <= hi,
                g[0].0 <= lo,
                forall|i: int| 0 <= i < g[0].0 ==> #[trigger] self.cells()[i] == cells0[i],
            decreases hi - lo + gk - gi,
        {
            if lo == gaps[gi].1 {
                let ghost old_gi = gi;
                gi = gi + 1;
                if gi < gk {
                    let ghost old_lo = lo;
                    lo = gaps[gi].0;
                    proof {
                        if gi < gk - 1 {
                            assert(g[gi as int].1 <= g[gk - 1].0);
                        }
                        assert forall|i: int| 0 <= i < lo implies self.cells()[i]
                            != UNINITIALIZED by {
                            if old_lo <= i && self.cells()[i] == UNINITIALIZED {
                                let a = choose|a: int|
                                    old_gi <= a < gk && #[trigger] in_block(g[a], i);
                                if a > gi {
                                    assert(g[gi as int].1 <= g[a].0);
                                }
                            }
                        }
                    }
                }
            } else if hi == gaps[gk - 1].1 {
                let s = gaps[gk - 1].0;
                let ghost old_hi = hi;
                let ghost old_gk = gk;
                proof {
                    if gi < gk - 1 {
                        assert(g[gi as int].1 <= g[gk - 1].0);
                    }
                }
                hi = if s > lo {
                    s
                } else {
                    lo
                };
                gk = gk - 1;
                proof {
                    assert forall|i: int| hi <= i < self.cells().len() implies self.cells()[i]
                        == UNINITIALIZED by {
                        if i < old_hi {
                            assert(in_block(g[old_gk - 1], i));
                        }
                    }
                    assert forall|i: int| lo <= i < hi implies (self.cells()[i] == UNINITIALIZED
                        <==> exists|a: int| gi <= a < gk && #[trigger] in_block(g[a], i)) by {
                        if exists|a: int| gi <= a < old_gk && #[trigger] in_block(g[a], i) {
                            let a = choose|a: int| gi <= a < old_gk && #[trigger] in_block(g[a], i);
                            assert(a != gk);
                        }
                    }
                    if gi < gk {
                        assert(g[gk - 1].1 <= g[gk as int].0);
                    }
                }
            } else {
                proof {
                    assert forall|a: int| gi <= a < gk implies #[trigger] g[a].1 <= g[gk - 1].1 by {
                        if a < gk - 1 {
                            assert(g[a].1 <= g[gk - 1].0);
                        }
                    }
                    assert(in_block(g[gi as int], lo as int));
                    let t = hi - 1;
                    if self.cells()[t] == UNINITIALIZED {
                        let a = choose|a: int| gi <= a < gk && #[trigger] in_block(g[a], t);
                    }
                }
                let ghost before = self.cells();
                let v = self.proposal_list[hi - 1];
                self.proposal_list[lo] = v;
                self.proposal_list[hi - 1] = UNINITIALIZED;
                proof {
                    broadcast use vstd::seq_lib::group_to_multiset_ensures;
                    broadcast use vstd::multiset::group_multiset_axioms;

                    let mid = before.update(lo as int, v);
                    vstd::seq_lib::to_multiset_update(before, lo as int, v);
                    vstd::seq_lib::to_multiset_update(mid, hi - 1, UNINITIALIZED);
                    assert(before.to_multiset().count(UNINITIALIZED) > 0);
                    assert(self.cells().to_multiset() =~= before.to_multiset());
                }
                lo = lo + 1;
                hi = hi - 1;
            }
        }
        self.begin_of_next_block = hi;
        hi
    }
}

/// Number of fresh blocks that a writer with `avail` free cells in its
/// current block reserves to write `count` more cells.
pub open spec fn blocks_needed(avail: int, count: int) -> int {
    if count <= avail {
        0
    } else {
        (count - avail - 1) / (BLOCK_SIZE as int) + 1
    }
}

/// Whether cell `i` is one that a push of `count` cells writes, for a
/// writer whose block is `slice` and a list whose cursor is `next_free`.
pub open spec fn push_writes(slice: (usize, usize), next_free: int, count: int, i: int) -> bool {
    let avail = slice.1 - slice.0;
    ||| slice.0 <= i < slice.0 + if count < avail {
        count
    } else {
        avail
    }
    ||| count > avail && next_free <= i < next_free + (count - avail)
}

proof fn lemma_blocks_needed(avail: int, count: int)
    requires
        0 <= avail < count,
    ensures
        blocks_needed(avail, count) >= 1,
        (blocks_needed(avail, count) - 1) * (BLOCK_SIZE as int) < count - avail,
        count - avail <= blocks_needed(avail, count) * (BLOCK_SIZE as int),
{
    let d = count - avail - 1;
    let q = d / 128;
    assert(q * 128 <= d < q * 128 + 128) by (nonlinear_arith)
        requires
            d >= 0,
            q == d / 128,
    ;
}

/// `list1` and `w1` are `list0` and `w0` after `count` copies of `node`
/// were pushed: the writer filled its block from the front, then fresh
/// blocks reserved at the cursor, and keeps the unfilled rest of the last.
pub open spec fn pushed(
    list0: ProposalList,
    w0: Writer,
    list1: ProposalList,
    w1: Writer,
    node: Node,
    count: int,
) -> bool {
    let avail = w0.slice().1 - w0.slice().0;
    let k = blocks_needed(avail, count);
    let nf = list0.next_free();
    &&& list1.next_free() == nf + k * BLOCK_SIZE
    &&& list1.cells() =~= Seq::new(
        list0.cells().len(),
        |i: int|
            if push_writes(w0.slice(), nf, count, i) {
                node
            } else {
                list0.cells()[i]
            },
    )
    &&& w1.slice() == if k == 0 {
        ((w0.slice().0 + count) as usize, w0.slice().1)
    } else {
        ((nf + count - avail) as usize, (nf + k * BLOCK_SIZE) as usize)
    }
    &&& w1.id() == w0.id()
    &&& list1.unfinished() == list0.unfinished()
    &&& list1.producers() == list0.producers()
}

/// A push keeps the unused cells below the cursor exactly those of the
/// blocks that writers have not filled: where they were the ranges `gaps`,
/// with the pushing writer's block at `k`, they are afterwards `gaps` with
/// the writer's new block at `k`.
pub proof fn lemma_push_keeps_gap_layout(
    list0: ProposalList,
    w0: Writer,
    list1: ProposalList,
    w1: Writer,
    node: Node,
    count: int,
    gaps: Seq<(usize, usize)>,
    k: int,
)
    requires
        list0.wf(),
        w0.wf_on(&list0),
        node != UNINITIALIZED,
        count >= 0,
        pushed(list0, w0, list1, w1, node, count),
        list1.wf(),
        0 <= k < gaps.len(),
        gaps[k] == w0.slice(),
        gap_layout(list0.cells(), list0.next_free(), gaps),
    ensures
        gap_layout(list1.cells(), list1.next_free(), gaps.update(k, w1.slice())),
{
    let b = w0.slice().0 as int;
    let e = w0.slice().1 as int;
    let avail = e - b;
    let kb = blocks_needed(avail, count);
    let nf = list0.next_free();
    let nf1 = list1.next_free();
    let g1 = gaps.update(k, w1.slice());
    if kb > 0 {
        lemma_blocks_needed(avail, count);
    }
    assert(e <= nf);
    assert forall|l: int| 0 <= l < g1.len() implies g1[l].0 <= g1[l].1 && g1[l].1 <= nf1 by {
        if l != k {
            assert(gaps[l].1 <= nf);
        }
    }
    assert forall|a: int, c: int|
        #![trigger g1[a], g1[c]]
        0 <= a < g1.len() && 0 <= c < g1.len() && a != c && g1[a].0 < g1[a].1 && g1[c].0
            < g1[c].1 implies g1[a].1 <= g1[c].0 || g1[c].1 <= g1[a].0 by {
        if a != k && c != k {
            assert(g1[a] == gaps[a] && g1[c] == gaps[c]);
        } else if a == k {
            assert(g1[c] == gaps[c]);
            assert(gaps[c].1 <= nf);
            if kb == 0 {
                assert(gaps[k].0 < gaps[k].1);
            }
        } else {
            assert(g1[a] == gaps[a]);
            assert(gaps[a].1 <= nf);
            if kb == 0 {
                assert(gaps[k].0 < gaps[k].1);
            }
        }
    }
    assert forall|i: int| 0 <= i < nf1 implies (list1.cells()[i] == UNINITIALIZED <==> exists|l: int|
        0 <= l < g1.len() && #[trigger] in_block(g1[l], i)) by {
        if push_writes(w0.slice(), nf, count, i) {
            assert(list1.cells()[i] == node);
            assert forall|l: int| 0 <= l < g1.len() implies !in_block(g1[l], i) by {
                if l != k {
                    assert(g1[l] == gaps[l]);
                    if i < nf {
                        assert(in_block(gaps[k], i));
                        if in_block(gaps[l], i) {
                            assert(gaps[l].0 < gaps[l].1);
                        }
                    } else {
                        assert(gaps[l].1 <= nf);
                    }
                }
            }
        } else {
            assert(list1.cells()[i] == list0.cells()[i]);
            if i < nf {
                if kb == 0 {
                    if in_block(gaps[k], i) {
                        assert(in_block(g1[k], i));
                    }
                    if in_block(g1[k], i) {
                        assert(in_block(gaps[k], i));
                    }
                } else {
                    assert(!in_block(gaps[k], i));
                    assert(!in_block(g1[k], i));
                }
                if exists|l: int| 0 <= l < gaps.len() && #[trigger] in_block(gaps[l], i) {
                    let l = choose|l: int| 0 <= l < gaps.len() && #[trigger] in_block(gaps[l], i);
                    if l != k {
                        assert(in_block(g1[l], i));
                    }
                }
                if exists|l: int| 0 <= l < g1.len() && #[trigger] in_block(g1[l], i) {
                    let l = choose|l: int| 0 <= l < g1.len() && #[trigger] in_block(g1[l], i);
                    if l != k {
                        assert(in_block(gaps[l], i));
                    }
                }
            } else {
                assert(list0.cells()[i] == UNINITIALIZED);
                assert(in_block(g1[k], i));
            }
        }
    }
}

/// One producer's handle on the proposal list: the block it is filling.
pub struct Writer {
    producer_id: usize,
    begin: usize,
    end: usize,
}

impl Writer {
    /// The slot of the list's unfinished ranges that belongs to this writer.
    pub closed spec fn id(&self) -> int {
        self.producer_id as int
    }

    /// The cells of the current block that this writer has not filled yet.
    pub closed spec fn slice(&self) -> (usize, usize) {
        (self.begin, self.end)
    }

    /// The writer's slot and block fit the list.
    pub open spec fn wf_on(&self, list: &ProposalList) -> bool {
        &&& 0 <= self.id() < list.unfinished().len()
        &&& self.slice().0 <= self.slice().1
        &&& self.slice().1 <= list.cells().len()
        &&& (self.slice().0 == self.slice().1 || self.slice().1 <= list.next_free())
        &&& forall|i: int|
            self.slice().0 <= i < self.slice().1 ==> #[trigger] list.cells()[i] == UNINITIALIZED
    }

    /// A writer with the next free slot of the list and an empty block,
    /// or `None` where every slot is taken.
    pub fn new(list: &mut ProposalList) -> (r: Option<Writer>)
        ensures
            final(list).cells() == old(list).cells(),
            final(list).next_free() == old(list).next_free(),
            final(list).unfinished() == old(list).unfinished(),
            old(list).producers() < old(list).unfinished().len() ==> {
                &&& r matches Some(w)
                &&& w.id() == old(list).producers()
                &&& w.slice() == (0usize, 0usize)
                &&& final(list).producers() == old(list).producers() + 1
            },
            old(list).producers() >= old(list).unfinished().len() ==> r is None
                && final(list).producers() == old(list).producers(),
    {
        let producer_id = list.producer_id;
        if producer_id >= list.unfinished_blocks.len() {
            return None;
        }
        list.producer_id = producer_id + 1;
        Some(Writer { producer_id, begin: 0, end: 0 })
    }

    /// Writes `count` copies of `node`: first into the rest of the current
    /// block, then into fresh blocks reserved at the list's cursor. Refused,
    /// with no change, where a fresh block would not end before the last cell.
    pub fn push(&mut self, list: &mut ProposalList, node: Node, count: usize) -> (r: Result<
        (),
        ProposalError,
    >)
        requires
            old(list).wf(),
            old(self).wf_on(old(list)),
            node != UNINITIALIZED,
        ensures
            final(list).wf(),
            final(self).wf_on(final(list)),
            final(self).id() == old(self).id(),
            final(list).unfinished() == old(list).unfinished(),
            final(list).producers() == old(list).producers(),
            final(list).cells().len() == old(list).cells().len(),
            ({
                let avail = old(self).slice().1 - old(self).slice().0;
                let k = blocks_needed(avail, count as int);
                let nf = old(list).next_free();
                if k == 0 || nf + k * BLOCK_SIZE < old(list).cells().len() {
                    &&& r is Ok
                    &&& pushed(*old(list), *old(self), *final(list), *final(self), node, count as int)
                    &&& final(list).cells().to_multiset().count(node) == old(list).cells().to_multiset().count(
                        node,
                    ) + count
                    &&& forall|i: int|
                        0 <= i < old(list).cells().len() && push_writes(
                            old(self).slice(),
                            nf,
                            count as int,
                            i,
                        ) ==> #[trigger] old(list).cells()[i] == UNINITIALIZED
                } else {
                    &&& r == Err::<(), _>(ProposalError::CapacityExceeded)
                    &&& *final(list) == *old(list)
                    &&& *final(self) == *old(self)
                }
            }),
    {
        let avail = self.end - self.begin;
        let len = list.proposal_list.len();
        let nf0 = list.begin_of_next_block;
        let ghost k = blocks_needed(avail as int, count as int);
        if count > avail {
            let needed = (count - avail - 1) / BLOCK_SIZE + 1;
            assert(needed == k);
            proof {
                lemma_blocks_needed(avail as int, count as int);
            }
            let room = len - nf0;
            if room == 0 || needed > (room - 1) / BLOCK_SIZE {
                proof {
                    if room > 0 {
                        let q = (room - 1) / 128;
                        assert(q * 128 <= room - 1 < q * 128 + 128) by (nonlinear_arith)
                            requires
                                room >= 1,
                                q == (room - 1) / 128,
                        ;
                        assert(needed >= q + 1);
                        assert(needed * 128 >= (q + 1) * 128) by (nonlinear_arith)
                            requires
                                needed >= q + 1,
                        ;
                    }
                }
                return Err(ProposalError::CapacityExceeded);
            }
            proof {
                let q = (room - 1) / 128;
                assert(q * 128 <= room - 1 < q * 128 + 128) by (nonlinear_arith)
                    requires
                        room >= 1,
                        q == (room - 1) / 128,
                ;
                assert(needed * 128 <= q * 128) by (nonlinear_arith)
                    requires
                        needed <= q,
                ;
            }
        }
        let ghost begin0 = self.begin as int;
        let ghost end0 = self.end as int;
        let ghost cells0 = list.cells();
        let ghost j: int = 0;
        let mut left: usize = count;
        while left > 0
            invariant
                list.wf(),
                self.wf_on(list),
                self.id() == old(self).id(),
                list.unfinished() == old(list).unfinished(),
                list.producers() == old(list).producers(),
                list.cells().len() == len,
                len == cells0.len(),
                cells0 == old(list).cells(),
                nf0 == old(list).next_free(),
                begin0 == old(self).slice().0,
                end0 == old(self).slice().1,
                avail == end0 - begin0,
                k == blocks_needed(avail as int, count as int),
                k == 0 || nf0 + k * BLOCK_SIZE < len,
                count > avail ==> (k - 1) * BLOCK_SIZE < count - avail && count - avail <= k
                    * BLOCK_SIZE,
                left <= count,
                count - left <= avail ==> j == 0 && self.slice() == ((begin0 + (count - left)) as usize, end0 as usize),
                count - left > avail ==> {
                    &&& 1 <= j <= k
                    &&& (j - 1) * BLOCK_SIZE < count - left - avail <= j * BLOCK_SIZE
                    &&& self.slice() == ((nf0 + (count - left - avail)) as usize, (nf0 + j * BLOCK_SIZE) as usize)
                },
                node != UNINITIALIZED,
                list.cells().to_multiset().count(node) == cells0.to_multiset().count(node) + (count - left),
                list.next_free() == nf0 + j * BLOCK_SIZE,
                list.cells() == Seq::new(
                    len as nat,
                    |i: int|
                        if push_writes((begin0 as usize, end0 as usize), nf0 as int, count - left, i) {
                            node
                        } else {
                            cells0[i]
                        },
                ),
            decreases left,
        {
            if self.begin == self.end {
                proof {
                    if count - left > avail {
                        assert(count - left - avail == j * BLOCK_SIZE);
                    }
                }
                self.fetch_new_range(list);
                proof {
                    j = j + 1;
                }
            }
            let ghost prev = list.cells();
            let at = self.begin;
            list.proposal_list[at] = node;
            proof {
                broadcast use vstd::seq_lib::group_to_multiset_ensures;
                broadcast use vstd::multiset::group_multiset_axioms;

                assert(prev[at as int] == UNINITIALIZED);
                vstd::seq_lib::to_multiset_update(prev, at as int, node);
                assert(list.cells() == prev.update(at as int, node));
                assert(prev.to_multiset().insert(node).remove(UNINITIALIZED).count(node)
                    == prev.to_multiset().count(node) + 1);
            }
            self.begin = at + 1;
            left = left - 1;
            assert(list.cells() =~= Seq::new(
                len as nat,
                |i: int|
                    if push_writes((begin0 as usize, end0 as usize), nf0 as int, count - left, i) {
                        node
                    } else {
                        cells0[i]
                    },
            ));
        }
        assert(list.cells() =~= Seq::new(
            old(list).cells().len(),
            |i: int|
                if push_writes(old(self).slice(), nf0 as int, count as int, i) {
                    node
                } else {
                    old(list).cells()[i]
                },
        ));
        Ok(())
    }

    /// Records the unfilled rest of the current block as this writer's
    /// unfinished range, and gives the block up.
    pub fn free_unfinished_range(&mut self, list: &mut ProposalList)
        requires
            old(self).wf_on(old(list)),
        ensures
            final(list).unfinished() == old(list).unfinished().update(
                old(self).id(),
                old(self).slice(),
            ),
            final(list).cells() == old(list).cells(),
            final(list).next_free() == old(list).next_free(),
            final(list).producers() == old(list).producers(),
            final(self).id() == old(self).id(),
            final(self).slice() == (old(self).slice().1, old(self).slice().1),
            final(self).wf_on(final(list)),
    {
        list.unfinished_blocks[self.producer_id] = (self.begin, self.end);
        self.begin = self.end;
    }

    /// Reserves the block of `BLOCK_SIZE` cells at the list's cursor.
    fn fetch_new_range(&mut self, list: &mut ProposalList)
        requires
            old(list).wf(),
            old(self).wf_on(old(list)),
            old(list).next_free() + BLOCK_SIZE < old(list).cells().len(),
        ensures
            final(list).wf(),
            final(self).wf_on(final(list)),
            final(self).id() == old(self).id(),
            final(self).slice() == (
                old(list).next_free() as usize,
                (old(list).next_free() + BLOCK_SIZE) as usize,
            ),
            final(list).next_free() == old(list).next_free() + BLOCK_SIZE,
            final(list).cells() == old(list).cells(),
            final(list).unfinished() == old(list).unfinished(),
            final(list).producers() == old(list).producers(),
    {
        self.begin = list.begin_of_next_block;
        list.begin_of_next_block = self.begin + BLOCK_SIZE;
        self.end = self.begin + BLOCK_SIZE;
    }
}

/// A reader's view of the proposal list: the cells below `end` are the
/// ones it draws from.
pub struct Sampler {
    end: usize,
}

impl Sampler {
    /// The end of the range that the reader draws from.
    pub closed spec fn spec_end(&self) -> int {
        self.end as int
    }

    /// A reader that draws from the cells below the list's cursor.
    pub fn new(list: &ProposalList) -> (r: Sampler)
        ensures
            r.spec_end() == list.next_free(),
    {
        Sampler { end: list.begin_of_next_block }
    }

    /// One draw from the whole range: the node in cell `index`, where
    /// `index` was drawn uniformly below the end, or `None` where that cell
    /// is unused and the draw has to be repeated.
    pub fn sample(&self, list: &ProposalList, index: usize) -> (r: Option<Node>)
        requires
            index < self.spec_end(),
            index < list.cells().len(),
        ensures
            r == if list.cells()[index as int] == UNINITIALIZED {
                None::<Node>
            } else {
                Some(list.cells()[index as int])
            },
    {
        self.sample_with_explicit_begin(list, 0, index)
    }

    /// One draw from the cells `begin..end`: the node in cell `index`, where
    /// `index` was drawn uniformly from that range, or `None` where that cell
    /// is unused and the draw has to be repeated.
    pub fn sample_with_explicit_begin(&self, list: &ProposalList, begin: usize, index: usize) -> (r:
        Option<Node>)
        requires
            begin <= index < self.spec_end(),
            index < list.cells().len(),
        ensures
            r == if list.cells()[index as int] == UNINITIALIZED {
                None::<Node>
            } else {
                Some(list.cells()[index as int])
            },
    {
        let proposal = list.proposal_list[index];
        if proposal != UNINITIALIZED {
            Some(proposal)
        } else {
            None
        }
    }

    /// Moves the end of the range to the list's current cursor.
    pub fn update_end(&mut self, list: &ProposalList)
        ensures
            final(self).spec_end() == list.next_free(),
    {
        self.end = list.begin_of_next_block;
    }

    pub fn end(&self) -> (r: usize)
        ensures
            r == self.spec_end(),
    {
        self.end
    }
}

} // verus!
