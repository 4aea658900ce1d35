use crate::wrappers::{
    count_values, lemma_permutation_keeps_distinct, map_entries, pair_le, sort_pairs,
};
use crate::Node;
use vstd::prelude::*;
use vstd::string::StringExecFns;

verus! {

/// A sink for the edges that a generator produces.
pub trait EdgeWriter {
    /// Whether the sink can take the edge `{u, v}` in its current state.
    spec fn accepts_edge(&self, u: Node, v: Node) -> bool;

    fn add_edge(&mut self, u: Node, v: Node)
        requires
            old(self).accepts_edge(u, v),
    ;
}

/// Counts the edges it receives and forgets everything else.
#[derive(Clone, Debug)]
pub struct EdgeCounter {
    number_of_edges: usize,
}

impl EdgeCounter {
    /// The number of edges received so far.
    pub closed spec fn edges(&self) -> nat {
        self.number_of_edges as nat
    }

    pub fn number_of_edges(&self) -> (r: usize)
        ensures
            r == self.edges(),
    {
        self.number_of_edges
    }
}

impl Default for EdgeCounter {
    fn default() -> (r: Self)
        ensures
            r.edges() == 0,
    {
        EdgeCounter { number_of_edges: 0 }
    }
}

impl EdgeWriter for EdgeCounter {
    open spec fn accepts_edge(&self, u: Node, v: Node) -> bool {
        self.edges() < usize::MAX
    }

    fn add_edge(&mut self, u: Node, v: Node)
        ensures
            final(self).edges() == old(self).edges() + 1,
    {
        self.number_of_edges = self.number_of_edges + 1;
    }
}

/// Keeps the degree of every node and the number of edges received.
#[derive(Clone, Debug)]
pub struct DegreeCount {
    number_of_edges: usize,
    degrees: Vec<usize>,
}

impl DegreeCount {
    /// The number of edges received so far.
    pub closed spec fn edges(&self) -> nat {
        self.number_of_edges as nat
    }

    /// The degree of each node, by index.
    pub closed spec fn spec_degrees(&self) -> Seq<usize> {
        self.degrees@
    }

    /// A sink for a graph on `number_of_nodes` nodes, with no edge yet.
    pub fn new(number_of_nodes: usize) -> (r: Self)
        ensures
            r.edges() == 0,
            r.spec_degrees() == Seq::new(number_of_nodes as nat, |i: int| 0usize),
    {
        let mut degrees: Vec<usize> = Vec::new();
        let mut i: usize = 0;
        while i < number_of_nodes
            invariant
                i <= number_of_nodes,
                degrees@ == Seq::new(i as nat, |j: int| 0usize),
            decreases number_of_nodes - i,
        {
            degrees.push(0);
            i = i + 1;
            assert(degrees@ =~= Seq::new(i as nat, |j: int| 0usize));
        }
        DegreeCount { number_of_edges: 0, degrees }
    }

    pub fn degrees(&self) -> (r: &[usize])
        ensures
            r@ == self.spec_degrees(),
    {
        self.degrees.as_slice()
    }

    pub fn number_of_edges(&self) -> (r: usize)
        ensures
            r == self.edges(),
    {
        self.number_of_edges
    }

    /// The number of nodes of each degree, by ascending degree.
    pub fn degree_distribution(&self) -> (r: Vec<(usize, usize)>)
        ensures
            is_degree_distribution(self.spec_degrees(), r@),
    {
        degree_distribution(self.degrees.as_slice())
    }

    /// The degree distribution as text, one line per degree.
    pub fn report_distribution(&self) -> (r: String)
        ensures
            exists|distr: Seq<(usize, usize)>|
                is_degree_distribution(self.spec_degrees(), distr) && r@ == report_text(distr),
    {
        let degree_distr = self.degree_distribution();
        report_distribution(degree_distr.as_slice())
    }
}

impl EdgeWriter for DegreeCount {
    open spec fn accepts_edge(&self, u: Node, v: Node) -> bool {
        &&& u < self.spec_degrees().len()
        &&& v < self.spec_degrees().len()
        &&& self.edges() < usize::MAX
        &&& u != v ==> self.spec_degrees()[u as int] < usize::MAX && self.spec_degrees()[v as int]
            < usize::MAX
        &&& u == v ==> self.spec_degrees()[u as int] + 2 <= usize::MAX
    }

    fn add_edge(&mut self, u: Node, v: Node)
        ensures
            final(self).edges() == old(self).edges() + 1,
            final(self).spec_degrees() == old(self).spec_degrees().update(
                u as int,
                (old(self).spec_degrees()[u as int] + 1) as usize,
            ).update(
                v as int,
                (old(self).spec_degrees().update(
                    u as int,
                    (old(self).spec_degrees()[u as int] + 1) as usize,
                )[v as int] + 1) as usize,
            ),
    {
        self.number_of_edges = self.number_of_edges + 1;
        self.degrees[u] = self.degrees[u] + 1;
        self.degrees[v] = self.degrees[v] + 1;
    }
}

/// `r` lists, by strictly ascending degree, each degree that occurs in
/// `degrees` with the number of nodes that have it.
pub open spec fn is_degree_distribution(degrees: Seq<Node>, r: Seq<(usize, usize)>) -> bool {
    &&& forall|i: int, j: int| 0 <= i < j < r.len() ==> #[trigger] r[i].0 < #[trigger] r[j].0
    &&& forall|i: int|
        0 <= i < r.len() ==> degrees.contains(#[trigger] r[i].0) && r[i].1
            == degrees.to_multiset().count(r[i].0)
    &&& forall|d: Node| degrees.contains(d) ==> exists|i: int| 0 <= i < r.len() && r[i].0 == d
}

/// The number of nodes of each degree, by ascending degree.
pub fn degree_distribution(degrees: &[Node]) -> (r: Vec<(usize, usize)>)
    ensures
        is_degree_distribution(degrees@, r@),
{
    let counts = count_values(degrees);
    let mut distr = map_entries(counts);
    let ghost unsorted = distr@;
    proof {
        assert forall|i: int, j: int| 0 <= i < j < unsorted.len() implies unsorted[i]
            != unsorted[j] by {
            assert(unsorted[i].0 != unsorted[j].0);
        }
    }
    sort_pairs(&mut distr);
    proof {
        broadcast use vstd::seq_lib::group_to_multiset_ensures;

        let s = distr@;
        lemma_permutation_keeps_distinct(unsorted, s);
        assert forall|i: int, j: int| 0 <= i < j < s.len() implies #[trigger] s[i].0
            < #[trigger] s[j].0 by {
            assert(pair_le(s[i], s[j]));
            assert(s.contains(s[i]));
            assert(s.contains(s[j]));
            let p = choose|p: int| 0 <= p < unsorted.len() && unsorted[p] == s[i];
            let q = choose|q: int| 0 <= q < unsorted.len() && unsorted[q] == s[j];
            if p < q {
                assert(unsorted[p].0 != unsorted[q].0);
            } else if q < p {
                assert(unsorted[q].0 != unsorted[p].0);
            }
        }
        assert forall|i: int| 0 <= i < s.len() implies degrees@.contains(#[trigger] s[i].0)
            && s[i].1 == degrees@.to_multiset().count(s[i].0) by {
            assert(s.contains(s[i]));
            let p = choose|p: int| 0 <= p < unsorted.len() && unsorted[p] == s[i];
            assert(counts@.contains_key(unsorted[p].0));
        }
        assert forall|d: Node| degrees@.contains(d) implies exists|i: int|
            0 <= i < s.len() && s[i].0 == d by {
            assert(counts@.contains_key(d));
            let p = choose|p: int| 0 <= p < unsorted.len() && unsorted[p].0 == d;
            assert(unsorted.contains(unsorted[p]));
            assert(unsorted.to_multiset().count(unsorted[p]) > 0);
            assert(s.contains(unsorted[p]));
        }
    }
    distr
}

/// The character of the decimal digit `d`.
pub open spec fn digit_char(d: int) -> char {
    if d == 0 {
        '0'
    } else if d == 1 {
        '1'
    } else if d == 2 {
        '2'
    } else if d == 3 {
        '3'
    } else if d == 4 {
        '4'
    } else if d == 5 {
        '5'
    } else if d == 6 {
        '6'
    } else if d == 7 {
        '7'
    } else if d == 8 {
        '8'
    } else {
        '9'
    }
}

/// The decimal digits of `n`, without leading zeros.
pub open spec fn decimal(n: nat) -> Seq<char>
    decreases n,
{
    if n < 10 {
        seq![digit_char(n as int)]
    } else {
        decimal(n / 10).push(digit_char((n % 10) as int))
    }
}

/// `s` right-aligned in a field of `width` characters, as `{:>width}` pads it.
pub open spec fn pad_left(s: Seq<char>, width: nat) -> Seq<char> {
    if s.len() < width {
        Seq::new((width - s.len()) as nat, |i: int| ' ') + s
    } else {
        s
    }
}

/// The report line of `count` nodes of degree `degree`.
pub open spec fn report_line(degree: nat, count: nat) -> Seq<char> {
    seq!['#', 'D', 'D', ' '] + pad_left(decimal(degree), 10) + seq![',', ' '] + pad_left(
        decimal(count),
        10,
    ) + seq!['\n']
}

/// The report lines of a degree distribution, joined.
pub open spec fn report_text(distr: Seq<(usize, usize)>) -> Seq<char>
    decreases distr.len(),
{
    if distr.len() == 0 {
        Seq::empty()
    } else {
        report_text(distr.drop_last()) + report_line(
            distr.last().0 as nat,
            distr.last().1 as nat,
        )
    }
}

fn digit_str(d: usize) -> (r: &'static str)
    requires
        d < 10,
    ensures
        r@ == seq![digit_char(d as int)],
{
    if d == 0 {
        proof { reveal_strlit("0"); }
        "0"
    } else if d == 1 {
        proof { reveal_strlit("1"); }
        "1"
    } else if d == 2 {
        proof { reveal_strlit("2"); }
        "2"
    } else if d == 3 {
        proof { reveal_strlit("3"); }
        "3"
    } else if d == 4 {
        proof { reveal_strlit("4"); }
        "4"
    } else if d == 5 {
        proof { reveal_strlit("5"); }
        "5"
    } else if d == 6 {
        proof { reveal_strlit("6"); }
        "6"
    } else if d == 7 {
        proof { reveal_strlit("7"); }
        "7"
    } else if d == 8 {
        proof { reveal_strlit("8"); }
        "8"
    } else {
        proof { reveal_strlit("9"); }
        "9"
    }
}

/// The decimal digits of `n`, with their number.
fn decimal_string(n: usize) -> (r: (String, usize))
    ensures
        r.0@ == decimal(n as nat),
        r.1 == decimal(n as nat).len(),
        r.1 <= n + 1,
    decreases n,
{
    if n < 10 {
        (String::from_str(digit_str(n)), 1)
    } else {
        let (mut s, len) = decimal_string(n / 10);
        s.append(digit_str(n % 10));
        (s, len + 1)
    }
}

/// `n` in decimal, right-aligned in a field of `width` characters.
fn right_aligned(n: usize, width: usize) -> (r: String)
    ensures
        r@ == pad_left(decimal(n as nat), width as nat),
{
    let (digits, len) = decimal_string(n);
    let mut out = String::new();
    let mut i: usize = len;
    while i < width
        invariant
            len <= i,
            len < width ==> i <= width,
            len >= width ==> i == len,
            out@ == Seq::new((i - len) as nat, |j: int| ' '),
        decreases width - i,
    {
        proof { reveal_strlit(" "); }
        out.append(" ");
        i = i + 1;
        assert(out@ =~= Seq::new((i - len) as nat, |j: int| ' '));
    }
    let ghost spaces = out@;
    out.append(digits.as_str());
    proof {
        if len < width {
            assert(i == width);
            assert(spaces =~= Seq::new((width - decimal(n as nat).len()) as nat, |j: int| ' '));
        } else {
            assert(spaces =~= Seq::<char>::empty());
        }
    }
    assert(out@ =~= pad_left(decimal(n as nat), width as nat));
    out
}

/// The degree distribution as text: for each entry a line `#DD` followed
/// by the degree and the count, each right-aligned in ten characters.
pub fn report_distribution(degree_distr: &[(usize, usize)]) -> (r: String)
    ensures
        r@ == report_text(degree_distr@),
{
    let mut out = String::new();
    let mut i: usize = 0;
    while i < degree_distr.len()
        invariant
            i <= degree_distr@.len(),
            out@ == report_text(degree_distr@.subrange(0, i as int)),
        decreases degree_distr@.len() - i,
    {
        let (d, n) = degree_distr[i];
        proof {
            reveal_strlit("#DD ");
            reveal_strlit(", ");
            reveal_strlit("\n");
        }
        let ghost before = out@;
        out.append("#DD ");
        out.append(right_aligned(d, 10).as_str());
        out.append(", ");
        out.append(right_aligned(n, 10).as_str());
        out.append("\n");
        proof {
            let prefix = degree_distr@.subrange(0, i + 1);
            assert(prefix.drop_last() =~= degree_distr@.subrange(0, i as int));
            assert(prefix.last() == (d, n));
            assert(out@ =~= before + report_line(d as nat, n as nat));
        }
        i = i + 1;
    }
    assert(degree_distr@.subrange(0, degree_distr@.len() as int) =~= degree_distr@);
    out
}

} // verus!
