//! The immutable graph store: a compressed adjacency list (per-node offset and
//! degree into a flat target array), the dual out/in adjacency graph built
//! from it, and the inversion that derives the in-neighbor lists from the
//! out-neighbor lists.

use vstd::prelude::*;
use vstd::slice::slice_subrange;

verus! {

broadcast use vstd::std_specs::vec::axiom_spec_len;

/// Occurrences of `x` in a sequence of node ids.
pub open spec fn count_occ(s: Seq<usize>, x: usize) -> nat
    decreases s.len(),
{
    if s.len() == 0 {
        0
    } else {
        count_occ(s.drop_last(), x) + if s.last() == x {
            1nat
        } else {
            0nat
        }
    }
}

pub proof fn lemma_count_occ_empty(s: Seq<usize>, x: usize)
    requires
        s.len() == 0,
    ensures
        count_occ(s, x) == 0,
{
}

pub proof fn lemma_count_occ_push(s: Seq<usize>, e: usize, x: usize)
    ensures
        count_occ(s.push(e), x) == count_occ(s, x) + if e == x {
            1nat
        } else {
            0nat
        },
{
    assert(s.push(e).drop_last() =~= s);
}

/// Overwriting one slot adjusts the occurrence count by what leaves and what
/// arrives.
pub proof fn lemma_count_occ_update(s: Seq<usize>, i: int, x: usize, y: usize)
    requires
        0 <= i < s.len(),
    ensures
        count_occ(s.update(i, x), y) == count_occ(s, y) - (if s[i] == y {
            1nat
        } else {
            0nat
        }) + (if x == y {
            1nat
        } else {
            0nat
        }),
    decreases s.len(),
{
    if i == s.len() - 1 {
        assert(s.update(i, x).drop_last() =~= s.drop_last());
    } else {
        assert(s.update(i, x).drop_last() =~= s.drop_last().update(i, x));
        lemma_count_occ_update(s.drop_last(), i, x, y);
    }
}

/// An id occurs in a sequence exactly when its occurrence count is positive.
pub proof fn lemma_count_occ_positive(s: Seq<usize>, x: usize)
    ensures
        s.contains(x) <==> count_occ(s, x) > 0,
    decreases s.len(),
{
    if s.len() > 0 {
        lemma_count_occ_positive(s.drop_last(), x);
        if s.contains(x) {
            let i = choose|i: int| 0 <= i < s.len() && s[i] == x;
            if i < s.len() - 1 {
                assert(s.drop_last()[i] == x);
            }
        }
        if s.drop_last().contains(x) {
            let i = choose|i: int| 0 <= i < s.len() - 1 && s.drop_last()[i] == x;
            assert(s[i] == x);
        }
    }
}

/// Non-decreasing sequence of node ids.
pub open spec fn sorted(s: Seq<usize>) -> bool {
    forall|i: int, j: int| 0 <= i <= j < s.len() ==> s[i] <= s[j]
}

/// Total length of a sequence of rows.
pub open spec fn sum_lens(rows: Seq<Seq<usize>>) -> nat
    decreases rows.len(),
{
    if rows.len() == 0 {
        0
    } else {
        sum_lens(rows.drop_last()) + rows.last().len()
    }
}

pub proof fn lemma_sum_lens_update(rows: Seq<Seq<usize>>, t: int, r: Seq<usize>)
    requires
        0 <= t < rows.len(),
    ensures
        sum_lens(rows.update(t, r)) == sum_lens(rows) - rows[t].len() + r.len(),
    decreases rows.len(),
{
    if t == rows.len() - 1 {
        assert(rows.update(t, r).drop_last() =~= rows.drop_last());
    } else {
        assert(rows.update(t, r).drop_last() =~= rows.drop_last().update(t, r));
        lemma_sum_lens_update(rows.drop_last(), t, r);
    }
}

/// One node's slice of the flat target array.
#[derive(Clone, Copy)]
pub struct Node {
    pub degree: usize,
    pub offset: usize,
}

/// A compressed adjacency list: `nodes[v]` names the contiguous slice
/// `targets[offset .. offset + degree]` holding node `v`'s neighbors.
pub struct AdjacencyList {
    pub nodes: Vec<Node>,
    pub targets: Vec<usize>,
}

impl AdjacencyList {
    /// The slices partition the target array in node order, and every stored
    /// neighbor id lies inside the universe.
    pub open spec fn wf(self) -> bool {
        &&& (self.nodes@.len() == 0 ==> self.targets@.len() == 0)
        &&& (self.nodes@.len() > 0 ==> self.nodes@[0].offset == 0)
        &&& (forall|i: int|
            0 < i < self.nodes@.len() ==> (#[trigger] self.nodes@[i].offset) == self.nodes@[i
                - 1].offset + self.nodes@[i - 1].degree)
        &&& (self.nodes@.len() > 0 ==> self.nodes@.last().offset + self.nodes@.last().degree
            == self.targets@.len())
        &&& (forall|i: int|
            0 <= i < self.nodes@.len() ==> (#[trigger] self.nodes@[i].offset) + self.nodes@[i].degree
                <= self.targets@.len())
        &&& (forall|k: int|
            0 <= k < self.targets@.len() ==> (#[trigger] self.targets@[k] as int)
                < self.nodes@.len())
    }

    /// The adjacency structure as a sequence of neighbor sequences.
    pub open spec fn adj(self) -> Seq<Seq<usize>> {
        Seq::new(
            self.nodes@.len(),
            |i: int|
                self.targets@.subrange(
                    self.nodes@[i].offset as int,
                    self.nodes@[i].offset + self.nodes@[i].degree,
                ),
        )
    }

    pub fn node_count(&self) -> (r: usize)
        ensures
            r == self.nodes@.len(),
    {
        self.nodes.len()
    }

    pub fn rel_count(&self) -> (r: usize)
        ensures
            r == self.targets@.len(),
    {
        self.targets.len()
    }

    pub fn degree(&self, node: usize) -> (r: usize)
        requires
            self.wf(),
            node < self.nodes@.len(),
        ensures
            r == self.adj()[node as int].len(),
    {
        self.nodes[node].degree
    }

    /// The neighbors of `node`, borrowed from the flat target array.
    pub fn rels(&self, node: usize) -> (r: &[usize])
        requires
            self.wf(),
            node < self.nodes@.len(),
        ensures
            r@ == self.adj()[node as int],
    {
        let n = self.nodes[node];
        proof {
            vstd::std_specs::vec::axiom_spec_len(&self.targets);
            assert(n.offset + n.degree <= self.targets@.len());
            assert(self.targets@.len() <= usize::MAX);
        }
        let end = n.offset + n.degree;
        slice_subrange(self.targets.as_slice(), n.offset, end)
    }

    /// Builds the list from one offset per node plus the flat target array,
    /// as the textual graph format supplies them.
    pub fn from_parts(offsets: &Vec<usize>, targets: Vec<usize>) -> (r: Self)
        requires
            offsets@.len() > 0,
            offsets@[0] == 0,
            forall|i: int| 0 < i < offsets@.len() ==> offsets@[i - 1] <= #[trigger] offsets@[i],
            offsets@.last() <= targets@.len(),
            forall|k: int|
                0 <= k < targets@.len() ==> (#[trigger] targets@[k] as int) < offsets@.len(),
        ensures
            r.wf(),
            r.nodes@.len() == offsets@.len(),
            r.targets@ == targets@,
            forall|i: int|
                0 <= i < offsets@.len() ==> (#[trigger] r.nodes@[i].offset) == offsets@[i],
    {
        let node_count = offsets.len();
        let rel_count = targets.len();
        let mut nodes: Vec<Node> = Vec::new();
        let mut i: usize = 0;
        while i < node_count - 1
            invariant
                offsets@.len() == node_count,
                node_count > 0,
                i <= node_count - 1,
                nodes@.len() == i,
                forall|j: int| 0 <= j < i ==> (#[trigger] nodes@[j].offset) == offsets@[j],
                forall|j: int|
                    0 <= j < i ==> (#[trigger] nodes@[j].degree) == offsets@[j + 1] - offsets@[j],
                forall|j: int| 0 < j < offsets@.len() ==> offsets@[j - 1] <= #[trigger] offsets@[j],
                offsets@.last() <= targets@.len(),
            decreases node_count - 1 - i,
        {
            proof {
                assert(forall|a: int, b: int|
                    0 <= a <= b < offsets@.len() ==> offsets@[a] <= offsets@[b]) by {
                    assert forall|a: int, b: int| 0 <= a <= b < offsets@.len() implies offsets@[a]
                        <= offsets@[b] by {
                        lemma_offsets_monotone(offsets@, a, b);
                    }
                }
            }
            let node = Node { offset: offsets[i], degree: offsets[i + 1] - offsets[i] };
            nodes.push(node);
            i = i + 1;
        }
        proof {
            assert forall|a: int, b: int| 0 <= a <= b < offsets@.len() implies offsets@[a]
                <= offsets@[b] by {
                lemma_offsets_monotone(offsets@, a, b);
            }
        }
        let last_offset = offsets[node_count - 1];
        nodes.push(Node { offset: last_offset, degree: rel_count - last_offset });
        AdjacencyList { nodes, targets }
    }
}

pub proof fn lemma_offsets_monotone(offsets: Seq<usize>, a: int, b: int)
    requires
        forall|i: int| 0 < i < offsets.len() ==> offsets[i - 1] <= #[trigger] offsets[i],
        0 <= a <= b < offsets.len(),
    ensures
        offsets[a] <= offsets[b],
    decreases b - a,
{
    if a < b {
        lemma_offsets_monotone(offsets, a, b - 1);
    }
}

} // verus!

verus! {

/// The views of a vector of rows.
pub open spec fn rows_view(b: Seq<Vec<usize>>) -> Seq<Seq<usize>> {
    b.map_values(|r: Vec<usize>| r@)
}

impl AdjacencyList {
    /// Derives the inverse adjacency list: node `s` occurs among the
    /// neighbors of `t` in the result exactly as often as `t` occurs among
    /// the neighbors of `s` here, and every inverse row lists its entries in
    /// ascending order.
    #[verifier::loop_isolation(false)]
    #[verifier::rlimit(60)]
    pub fn invert(&self) -> (r: Self)
        requires
            self.wf(),
        ensures
            r.wf(),
            r.nodes@.len() == self.nodes@.len(),
            r.targets@.len() == self.targets@.len(),
            forall|t: int, s: int|
                0 <= t < self.nodes@.len() && 0 <= s < self.nodes@.len() ==> count_occ(
                    #[trigger] r.adj()[t],
                    s as usize,
                ) == count_occ(#[trigger] self.adj()[s], t as usize),
            forall|t: int| 0 <= t < self.nodes@.len() ==> sorted(#[trigger] r.adj()[t]),
    {
        let node_count = self.nodes.len();
        let mut buckets: Vec<Vec<usize>> = Vec::new();
        let mut t: usize = 0;
        while t < node_count
            invariant
                t <= node_count,
                buckets@.len() == t,
                forall|i: int| 0 <= i < t ==> (#[trigger] rows_view(buckets@)[i]).len() == 0,
            decreases node_count - t,
        {
            let ghost b0 = buckets@;
            buckets.push(Vec::new());
            proof {
                assert forall|i: int| 0 <= i < t + 1 implies (#[trigger] rows_view(buckets@)[i]).len()
                    == 0 by {
                    if i < t {
                        assert(buckets@[i] == b0[i]);
                        assert(rows_view(b0)[i].len() == 0);
                    }
                }
            }
            t = t + 1;
        }
        proof {
            assert forall|tt: int, xx: int|
                0 <= tt < node_count && 0 <= xx < node_count implies #[trigger] count_occ(
                rows_view(buckets@)[tt],
                xx as usize,
            ) == 0nat by {
                assert(rows_view(buckets@)[tt].len() == 0);
            }
            assert(sum_lens(rows_view(buckets@)) == 0nat) by {
                lemma_sum_lens_zero(rows_view(buckets@));
            }
        }
        let mut s: usize = 0;
        while s < node_count
            invariant
                s <= node_count,
                buckets@.len() == node_count,
                forall|tt: int, xx: int|
                    0 <= tt < node_count && 0 <= xx < node_count ==> #[trigger] count_occ(
                        rows_view(buckets@)[tt],
                        xx as usize,
                    ) == if xx < s {
                        count_occ(self.adj()[xx], tt as usize)
                    } else {
                        0nat
                    },
                forall|tt: int| 0 <= tt < node_count ==> sorted(#[trigger] rows_view(buckets@)[tt]),
                forall|tt: int, k: int|
                    0 <= tt < node_count && 0 <= k < rows_view(buckets@)[tt].len() ==> (
                    #[trigger] rows_view(buckets@)[tt][k] as int) < s,
                sum_lens(rows_view(buckets@)) == if s < node_count {
                    self.nodes@[s as int].offset as nat
                } else {
                    self.targets@.len()
                },
            decreases node_count - s,
        {
            let n = self.nodes[s];
            proof {
                vstd::std_specs::vec::axiom_spec_len(&self.targets);
                assert(self.nodes@[s as int].offset + self.nodes@[s as int].degree
                    <= self.targets@.len());
                assert forall|tt: usize| #[trigger] count_occ(
                    self.adj()[s as int].take(0),
                    tt,
                ) == 0nat by {
                    lemma_count_occ_empty(self.adj()[s as int].take(0), tt);
                }
            }
            let mut j: usize = 0;
            while j < n.degree
                invariant
                    j <= n.degree,
                    s < node_count,
                    n == self.nodes@[s as int],
                    buckets@.len() == node_count,
                    forall|tt: int, xx: int|
                        0 <= tt < node_count && 0 <= xx < node_count ==> #[trigger] count_occ(
                            rows_view(buckets@)[tt],
                            xx as usize,
                        ) == if xx < s {
                            count_occ(self.adj()[xx], tt as usize)
                        } else if xx == s {
                            count_occ(self.adj()[s as int].take(j as int), tt as usize)
                        } else {
                            0nat
                        },
                    forall|tt: int| 0 <= tt < node_count ==> sorted(
                        #[trigger] rows_view(buckets@)[tt],
                    ),
                    forall|tt: int, k: int|
                        0 <= tt < node_count && 0 <= k < rows_view(buckets@)[tt].len() ==> (
                        #[trigger] rows_view(buckets@)[tt][k] as int) <= s,
                    sum_lens(rows_view(buckets@)) == self.nodes@[s as int].offset + j,
                decreases n.degree - j,
            {
                let ghost bk0 = rows_view(buckets@);
                let target = self.targets[n.offset + j];
                proof {
                    assert(self.targets@[n.offset + j] == self.adj()[s as int][j as int]);
                    assert((target as int) < node_count);
                }
                let row = &mut buckets[target];
                row.push(s);
                proof {
                    let bk1 = rows_view(buckets@);
                    assert(bk1 =~= bk0.update(target as int, bk0[target as int].push(s)));
                    lemma_sum_lens_update(bk0, target as int, bk0[target as int].push(s));
                    assert forall|tt: int, xx: int|
                        0 <= tt < node_count && 0 <= xx < node_count implies #[trigger] count_occ(
                        bk1[tt],
                        xx as usize,
                    ) == if xx < s {
                        count_occ(self.adj()[xx], tt as usize)
                    } else if xx == s {
                        count_occ(self.adj()[s as int].take(j + 1), tt as usize)
                    } else {
                        0nat
                    } by {
                        assert(self.adj()[s as int].take(j + 1).drop_last() =~= self.adj()[
                            s as int
                        ].take(j as int));
                        assert(self.adj()[s as int].take(j + 1).last() == target);
                        if tt == target as int {
                            lemma_count_occ_push(bk0[tt], s, xx as usize);
                        }
                    }
                }
                j = j + 1;
            }
            proof {
                assert(self.adj()[s as int].take(n.degree as int) =~= self.adj()[s as int]);
                if s + 1 < node_count {
                    assert(self.nodes@[s as int + 1].offset == n.offset + n.degree);
                } else {
                    assert(self.nodes@.last() == self.nodes@[s as int]);
                }
                assert forall|tt: int, xx: int|
                    0 <= tt < node_count && 0 <= xx < node_count implies #[trigger] count_occ(
                    rows_view(buckets@)[tt],
                    xx as usize,
                ) == if xx < s + 1 {
                    count_occ(self.adj()[xx], tt as usize)
                } else {
                    0nat
                } by {
                    if xx == s {
                        assert(count_occ(rows_view(buckets@)[tt], xx as usize) == count_occ(
                            self.adj()[s as int].take(n.degree as int),
                            tt as usize,
                        ));
                    }
                }
            }
            s = s + 1;
        }
        let ghost bk = rows_view(buckets@);
        let mut nodes: Vec<Node> = Vec::new();
        let mut targets: Vec<usize> = Vec::new();
        let mut t: usize = 0;
        while t < node_count
            invariant
                t <= node_count,
                buckets@.len() == node_count,
                bk == rows_view(buckets@),
                nodes@.len() == t,
                t > 0 ==> nodes@[0].offset == 0,
                forall|i: int|
                    0 < i < t ==> (#[trigger] nodes@[i].offset) == nodes@[i - 1].offset + nodes@[i
                        - 1].degree,
                forall|i: int|
                    0 <= i < t ==> (#[trigger] nodes@[i].degree) == bk[i].len(),
                forall|i: int|
                    0 <= i < t ==> (#[trigger] nodes@[i].offset) + nodes@[i].degree
                        <= targets@.len(),
                t > 0 ==> nodes@[t - 1].offset + nodes@[t - 1].degree == targets@.len(),
                t == 0 ==> targets@.len() == 0,
                forall|i: int|
                    0 <= i < t ==> targets@.subrange(
                        (#[trigger] nodes@[i].offset) as int,
                        nodes@[i].offset + nodes@[i].degree,
                    ) == bk[i],
                forall|k: int|
                    0 <= k < targets@.len() ==> (#[trigger] targets@[k] as int) < node_count,
            decreases node_count - t,
        {
            let row = &buckets[t];
            let off = targets.len();
            nodes.push(Node { degree: row.len(), offset: off });
            let ghost targets0 = targets@;
            let mut k: usize = 0;
            while k < row.len()
                invariant
                    k <= row@.len(),
                    targets@ =~= targets0 + row@.take(k as int),
                decreases row@.len() - k,
            {
                targets.push(row[k]);
                k = k + 1;
            }
            proof {
                assert(row@.take(row@.len() as int) =~= row@);
                assert(targets@ =~= targets0 + row@);
                assert(row@ == bk[t as int]);
                assert forall|i: int| 0 <= i < t + 1 implies targets@.subrange(
                    (#[trigger] nodes@[i].offset) as int,
                    nodes@[i].offset + nodes@[i].degree,
                ) == bk[i] by {
                    if i < t {
                        assert(targets@.subrange(
                            nodes@[i].offset as int,
                            nodes@[i].offset + nodes@[i].degree,
                        ) =~= targets0.subrange(
                            nodes@[i].offset as int,
                            nodes@[i].offset + nodes@[i].degree,
                        ));
                    } else {
                        assert(targets@.subrange(off as int, off + row@.len()) =~= row@);
                    }
                }
            }
            t = t + 1;
        }
        let r = AdjacencyList { nodes, targets };
        proof {
            assert forall|t: int| 0 <= t < node_count implies #[trigger] r.adj()[t] == bk[t] by {
                assert(r.adj()[t] == r.targets@.subrange(
                    r.nodes@[t].offset as int,
                    r.nodes@[t].offset + r.nodes@[t].degree,
                ));
            }
            assert(r.targets@.len() == self.targets@.len()) by {
                lemma_sum_lens_prefix(bk, node_count as int, r.nodes@);
                assert(bk.take(node_count as int) =~= bk);
            }
        }
        r
    }
}

pub proof fn lemma_sum_lens_zero(rows: Seq<Seq<usize>>)
    requires
        forall|i: int| 0 <= i < rows.len() ==> (#[trigger] rows[i]).len() == 0,
    ensures
        sum_lens(rows) == 0,
    decreases rows.len(),
{
    if rows.len() > 0 {
        lemma_sum_lens_zero(rows.drop_last());
    }
}

/// In a contiguous layout, the end of the last slice equals the total length
/// of the rows laid out.
pub proof fn lemma_sum_lens_prefix(rows: Seq<Seq<usize>>, t: int, nodes: Seq<Node>)
    requires
        0 <= t <= rows.len(),
        nodes.len() >= t,
        t > 0 ==> nodes[0].offset == 0,
        forall|i: int|
            0 < i < t ==> (#[trigger] nodes[i].offset) == nodes[i - 1].offset + nodes[i - 1].degree,
        forall|i: int| 0 <= i < t ==> (#[trigger] nodes[i].degree) == rows[i].len(),
    ensures
        t > 0 ==> nodes[t - 1].offset + nodes[t - 1].degree == sum_lens(rows.take(t)),
        t == 0 ==> sum_lens(rows.take(t)) == 0,
    decreases t,
{
    if t > 0 {
        lemma_sum_lens_prefix(rows, t - 1, nodes);
        assert(rows.take(t).drop_last() =~= rows.take(t - 1));
    }
}

} // verus!

verus! {

/// The dual adjacency graph: out-neighbor lists, the derived in-neighbor
/// lists, and the work threshold of the push/pull switching heuristic.
pub struct AdjacencyGraph {
    pub out: AdjacencyList,
    pub inc: AdjacencyList,
    pub threshold: usize,
}

impl AdjacencyGraph {
    /// Both lists are well formed over one universe, cover the same number of
    /// relationships, and are mutual inverses: `s` points at `t` as often as
    /// `t` is pointed at from `s`.
    pub open spec fn wf(self) -> bool {
        &&& self.out.wf()
        &&& self.inc.wf()
        &&& self.inc.nodes@.len() == self.out.nodes@.len()
        &&& self.inc.targets@.len() == self.out.targets@.len()
        &&& forall|s: int, t: int|
            0 <= s < self.out.nodes@.len() && 0 <= t < self.out.nodes@.len() ==> #[trigger] count_occ(
                self.inc.adj()[t],
                s as usize,
            ) == count_occ(self.out.adj()[s], t as usize)
    }

    /// The out-adjacency as a sequence of neighbor sequences.
    #[verifier::opaque]
    pub open spec fn out_adj(self) -> Seq<Seq<usize>> {
        self.out.adj()
    }

    /// The in-adjacency as a sequence of predecessor sequences.
    #[verifier::opaque]
    pub open spec fn inc_adj(self) -> Seq<Seq<usize>> {
        self.inc.adj()
    }

    pub open spec fn spec_node_count(self) -> nat {
        self.out.nodes@.len()
    }

    /// Builds the dual graph from an out-adjacency list by deriving the
    /// inverse list, with the default work threshold of one twentieth of the
    /// relationship count.
    pub fn from_out_list(out: AdjacencyList) -> (r: Self)
        requires
            out.wf(),
        ensures
            r.wf(),
            r.out == out,
            r.threshold == out.targets@.len() / 20,
    {
        let threshold = out.rel_count() / 20;
        let inc = out.invert();
        AdjacencyGraph { out, inc, threshold }
    }

    pub fn node_count(&self) -> (r: usize)
        ensures
            r == self.spec_node_count(),
    {
        self.out.node_count()
    }

    pub fn rel_count(&self) -> (r: usize)
        ensures
            r == self.out.targets@.len(),
    {
        self.out.rel_count()
    }

    /// The work threshold of the push/pull heuristic; configurable, with
    /// `rel_count / 20` as the default set by the constructor.
    pub fn threshold(&self) -> (r: usize)
        ensures
            r == self.threshold,
    {
        self.threshold
    }

    pub fn set_threshold(&mut self, threshold: usize)
        ensures
            final(self).out == old(self).out,
            final(self).inc == old(self).inc,
            final(self).threshold == threshold,
    {
        self.threshold = threshold;
    }

    pub fn out(&self, node: usize) -> (r: &[usize])
        requires
            self.wf(),
            (node as int) < self.spec_node_count(),
        ensures
            r@ == self.out_adj()[node as int],
    {
        proof {
            reveal(AdjacencyGraph::out_adj);
        }
        self.out.rels(node)
    }

    pub fn inc(&self, node: usize) -> (r: &[usize])
        requires
            self.wf(),
            (node as int) < self.spec_node_count(),
        ensures
            r@ == self.inc_adj()[node as int],
    {
        proof {
            reveal(AdjacencyGraph::inc_adj);
        }
        self.inc.rels(node)
    }

    pub fn out_degree(&self, node: usize) -> (r: usize)
        requires
            self.wf(),
            (node as int) < self.spec_node_count(),
        ensures
            r == self.out_adj()[node as int].len(),
    {
        proof {
            reveal(AdjacencyGraph::out_adj);
        }
        self.out.degree(node)
    }

    pub fn inc_degree(&self, node: usize) -> (r: usize)
        requires
            self.wf(),
            (node as int) < self.spec_node_count(),
        ensures
            r == self.inc_adj()[node as int].len(),
    {
        proof {
            reveal(AdjacencyGraph::inc_adj);
        }
        self.inc.degree(node)
    }
}

/// Shape of the opaque adjacency views: one row per node, every stored id
/// inside the universe.
pub proof fn lemma_adj_views(g: AdjacencyGraph)
    requires
        g.wf(),
    ensures
        g.out_adj().len() == g.spec_node_count(),
        g.inc_adj().len() == g.spec_node_count(),
        forall|v: int, j: int|
            0 <= v < g.spec_node_count() && 0 <= j < g.out_adj()[v].len() ==> (#[trigger] g.out_adj()[v][j] as int)
                < g.spec_node_count(),
        forall|v: int, j: int|
            0 <= v < g.spec_node_count() && 0 <= j < g.inc_adj()[v].len() ==> (#[trigger] g.inc_adj()[v][j] as int)
                < g.spec_node_count(),
{
    reveal(AdjacencyGraph::out_adj);
    reveal(AdjacencyGraph::inc_adj);
    assert forall|v: int, j: int|
        0 <= v < g.spec_node_count() && 0 <= j < g.out_adj()[v].len() implies (#[trigger] g.out_adj()[v][j] as int)
        < g.spec_node_count() by {
        assert(g.out_adj()[v][j] == g.out.targets@[g.out.nodes@[v].offset + j]);
    }
    assert forall|v: int, j: int|
        0 <= v < g.spec_node_count() && 0 <= j < g.inc_adj()[v].len() implies (#[trigger] g.inc_adj()[v][j] as int)
        < g.spec_node_count() by {
        assert(g.inc_adj()[v][j] == g.inc.targets@[g.inc.nodes@[v].offset + j]);
    }
}

/// Adjacency is inverse-consistent: `v` is an out-neighbor of `u` exactly
/// when `u` is an in-neighbor of `v`.
pub proof fn lemma_adjacency_inverse(g: AdjacencyGraph, u: int, v: int)
    requires
        g.wf(),
        0 <= u < g.spec_node_count(),
        0 <= v < g.spec_node_count(),
    ensures
        g.out_adj()[u].contains(v as usize) <==> g.inc_adj()[v].contains(u as usize),
{
    reveal(AdjacencyGraph::out_adj);
    reveal(AdjacencyGraph::inc_adj);
    lemma_count_occ_positive(g.out_adj()[u], v as usize);
    lemma_count_occ_positive(g.inc_adj()[v], u as usize);
}

} // verus!
