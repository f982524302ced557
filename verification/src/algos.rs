//! The vertex programs built on the frontier primitives: breadth-first
//! search (parent pointers) and connected components (label propagation by
//! minimum), with their correctness arguments.
//!
//! The fold lemmas here are stated over plain adjacency sequences — one row
//! of neighbor ids per node — so that they depend only on the few facts they
//! use: row count, id ranges, and, for the pull direction, that the
//! in-adjacency inverts the out-adjacency.

use crate::graph::AdjacencyGraph;
use crate::graph::count_occ;
use crate::graph::lemma_adj_views;
use crate::graph::lemma_adjacency_inverse;
use crate::graph::lemma_count_occ_positive;
use crate::graph::lemma_count_occ_update;
use crate::ligra::RelationshipMapper;
use crate::ligra::dense_form;
use crate::ligra::frontier_ok;
use crate::ligra::nm_dense_upto;
use crate::ligra::nm_sparse_upto;
use crate::ligra::pull_tgt;
use crate::ligra::pull_tgt_upto;
use crate::ligra::pull_upto;
use crate::ligra::push_src;
use crate::ligra::push_src_upto;
use crate::ligra::push_upto;
use crate::ligra::relationship_map;
use crate::ligra::rm_post;
use crate::ligra::rm_work;
use crate::ligra::sparse_form;
use crate::node_set::NodeSubset;
use crate::node_set::count_true;
use crate::node_set::distinct;
use crate::node_set::lemma_sparse_of_dense;
use crate::node_set::sparse_of_dense;
use vstd::prelude::*;

verus! {

broadcast use vstd::std_specs::vec::axiom_spec_len;

/// Well-shaped adjacency rows over a universe of `n` nodes.
pub open spec fn adj_ok(n: nat, oa: Seq<Seq<usize>>) -> bool {
    &&& n <= usize::MAX
    &&& oa.len() == n
    &&& forall|v: int, j: int|
        0 <= v < n && 0 <= j < oa[v].len() ==> (#[trigger] oa[v][j] as int) < n
}

/// `ia` inverts `oa`: every in-neighbor entry corresponds to an out-edge.
pub open spec fn inverts(n: nat, oa: Seq<Seq<usize>>, ia: Seq<Seq<usize>>) -> bool {
    forall|t: int, k: int|
        0 <= t < n && 0 <= k < ia[t].len() ==> #[trigger] oa[ia[t][k] as int].contains(t as usize)
}

/// Every out-edge entry has a matching in-neighbor entry.
pub open spec fn inverts_back(n: nat, oa: Seq<Seq<usize>>, ia: Seq<Seq<usize>>) -> bool {
    forall|s: int, j: int|
        0 <= s < n && 0 <= j < oa[s].len() ==> ia[(#[trigger] oa[s][j]) as int].contains(
            s as usize,
        )
}

// ---------------------------------------------------------------------------
// Reachability along out-edges.
// ---------------------------------------------------------------------------

/// A walk through the adjacency rows: non-empty, in range, each step an edge.
pub open spec fn is_path(n: nat, oa: Seq<Seq<usize>>, p: Seq<usize>) -> bool {
    &&& p.len() > 0
    &&& forall|i: int| 0 <= i < p.len() ==> (#[trigger] p[i] as int) < n
    &&& forall|i: int| 0 <= i < p.len() - 1 ==> #[trigger] oa[p[i] as int].contains(p[i + 1])
}

/// `to` can be reached from `from` along out-edges.
#[verifier::opaque]
pub open spec fn reachable(n: nat, oa: Seq<Seq<usize>>, from: usize, to: usize) -> bool {
    exists|p: Seq<usize>| is_path(n, oa, p) && p.first() == from && p.last() == to
}

pub proof fn lemma_reachable_refl(n: nat, oa: Seq<Seq<usize>>, v: usize)
    requires
        (v as int) < n,
    ensures
        reachable(n, oa, v, v),
{
    reveal(reachable);
    let p = seq![v];
    assert(is_path(n, oa, p) && p.first() == v && p.last() == v);
}

pub proof fn lemma_reachable_step(n: nat, oa: Seq<Seq<usize>>, a: usize, b: usize, c: usize)
    requires
        reachable(n, oa, a, b),
        oa[b as int].contains(c),
        (c as int) < n,
    ensures
        reachable(n, oa, a, c),
{
    reveal(reachable);
    let p = choose|p: Seq<usize>| is_path(n, oa, p) && p.first() == a && p.last() == b;
    let q = p.push(c);
    assert forall|i: int| 0 <= i < q.len() - 1 implies #[trigger] oa[q[i] as int].contains(
        q[i + 1],
    ) by {
        if i < p.len() - 1 {
            assert(q[i] == p[i] && q[i + 1] == p[i + 1]);
        } else {
            assert(q[i] == b && q[i + 1] == c);
        }
    }
    assert(is_path(n, oa, q) && q.first() == a && q.last() == c);
}

// ---------------------------------------------------------------------------
// BFS: parent pointers with a compare-and-set relaxation.
// ---------------------------------------------------------------------------

/// Breadth-first search state: one parent pointer per node, `usize::MAX`
/// meaning "not yet visited".
pub struct BFS {
    pub parents: Vec<usize>,
}

impl View for BFS {
    type V = Seq<usize>;

    open spec fn view(&self) -> Seq<usize> {
        self.parents@
    }
}

impl BFS {
    pub fn new(node_count: usize) -> (r: Self)
        ensures
            r.parents@.len() == node_count,
            forall|v: int| 0 <= v < node_count ==> r.parents@[v] == usize::MAX,
    {
        BFS { parents: crate::ligra::par_vec_copy(node_count, usize::MAX) }
    }
}

impl RelationshipMapper for BFS {
    open spec fn state_len(m: Seq<usize>) -> nat {
        m.len()
    }

    /// Claim an unvisited target for its source: the sequential meaning of
    /// the compare-and-set from `usize::MAX` to `source`.
    open spec fn spec_update(m: Seq<usize>, source: int, target: int) -> (Seq<usize>, bool) {
        if m[target] == usize::MAX {
            (m.update(target, source as usize), true)
        } else {
            (m, false)
        }
    }

    /// Skip targets that already have a parent.
    open spec fn spec_check(m: Seq<usize>, target: int) -> bool {
        m[target] == usize::MAX
    }

    open spec fn spec_has_no_result() -> bool {
        false
    }

    proof fn update_preserves_len(m: Seq<usize>, source: int, target: int) {
    }

    fn update(&mut self, source: usize, target: usize) -> (r: bool) {
        if self.parents[target] == usize::MAX {
            self.parents[target] = source;
            true
        } else {
            false
        }
    }

    fn check(&self, target: usize) -> (r: bool) {
        self.parents[target] == usize::MAX
    }

    fn has_no_result(&self) -> (r: bool) {
        false
    }
}

/// The BFS safety invariant: the state is sized to the universe, the root is
/// its own parent, and every visited node has an in-range parent that points
/// at it along a real edge; node and parent are both reachable from the root.
pub open spec fn bfs_inv(n: nat, oa: Seq<Seq<usize>>, root: usize, m: Seq<usize>) -> bool {
    &&& m.len() == n
    &&& (root as int) < n
    &&& m[root as int] == root
    &&& forall|v: int|
        0 <= v < m.len() && #[trigger] m[v] != usize::MAX ==> reachable(n, oa, root, v as usize)
    &&& forall|v: int|
        0 <= v < m.len() && v != root && #[trigger] m[v] != usize::MAX ==> (m[v] as int) < m.len()
            && oa[m[v] as int].contains(v as usize)
    &&& forall|v: int|
        0 <= v < m.len() && v != root && #[trigger] m[v] != usize::MAX ==> reachable(
            n,
            oa,
            root,
            m[v] as usize,
        )
}

/// Every out-edge of a visited node outside `fs` leads to a visited node.
pub open spec fn bfs_closed_except(
    n: nat,
    oa: Seq<Seq<usize>>,
    m: Seq<usize>,
    fs: Set<usize>,
) -> bool {
    forall|v: int, j: int|
        0 <= v < m.len() && m[v] != usize::MAX && !fs.contains(v as usize) && 0 <= j < oa[v].len()
            ==> m[#[trigger] oa[v][j] as int] != usize::MAX
}

/// All of `fs` is visited.
pub open spec fn members_visited(m: Seq<usize>, fs: Set<usize>) -> bool {
    forall|v: usize| #[trigger]
        fs.contains(v) ==> (v as int) < m.len() && m[v as int] != usize::MAX
}

/// Claiming one unvisited target for a visited source preserves the BFS
/// invariant and lowers the unvisited count by one.
proof fn lemma_bfs_claim(
    n: nat,
    oa: Seq<Seq<usize>>,
    root: usize,
    m: Seq<usize>,
    s: usize,
    t: usize,
)
    requires
        adj_ok(n, oa),
        bfs_inv(n, oa, root, m),
        (s as int) < n,
        (t as int) < n,
        m[s as int] != usize::MAX,
        m[t as int] == usize::MAX,
        oa[s as int].contains(t),
    ensures
        bfs_inv(n, oa, root, m.update(t as int, s)),
        count_occ(m.update(t as int, s), usize::MAX) + 1 == count_occ(m, usize::MAX),
        t != root,
{
    let m1 = m.update(t as int, s);
    assert(reachable(n, oa, root, s));
    lemma_reachable_step(n, oa, root, s, t);
    lemma_count_occ_update(m, t as int, s, usize::MAX);
    assert((s as int) < n && n <= usize::MAX);
    assert(s != usize::MAX);
    assert(t != root) by {
        assert((root as int) < n && n <= usize::MAX);
        assert(m[root as int] == root && root != usize::MAX);
    }
    assert forall|v: int|
        0 <= v < m1.len() && #[trigger] m1[v] != usize::MAX implies reachable(
        n,
        oa,
        root,
        v as usize,
    ) by {
        if v != t as int {
            assert(m1[v] == m[v]);
        }
    }
    assert forall|v: int|
        0 <= v < m1.len() && v != root && #[trigger] m1[v] != usize::MAX implies (m1[v] as int)
        < m1.len() && oa[m1[v] as int].contains(v as usize) by {
        if v == t as int {
            assert(m1[v] == s);
        } else {
            assert(m1[v] == m[v]);
        }
    }
    assert forall|v: int|
        0 <= v < m1.len() && v != root && #[trigger] m1[v] != usize::MAX implies reachable(
        n,
        oa,
        root,
        m1[v] as usize,
    ) by {
        if v == t as int {
            assert(m1[v] == s);
        } else {
            assert(m1[v] == m[v]);
        }
    }
}

/// What one push scan of a source does to the BFS state: the invariant is
/// preserved, visited entries are untouched, the scanned targets end up
/// visited, and the unvisited count drops by the number of emissions.
#[verifier::rlimit(100)]
proof fn lemma_bfs_push_src_state(
    n: nat,
    oa: Seq<Seq<usize>>,
    root: usize,
    m0: Seq<usize>,
    s: usize,
    j: int,
)
    requires
        adj_ok(n, oa),
        bfs_inv(n, oa, root, m0),
        (s as int) < n,
        m0[s as int] != usize::MAX,
        0 <= j <= oa[s as int].len(),
    ensures
        ({
            let res = push_src_upto::<BFS>(m0, s, oa[s as int], j);
            &&& bfs_inv(n, oa, root, res.0)
            &&& res.0.len() == m0.len()
            &&& forall|v: int| 0 <= v < m0.len() && m0[v] != usize::MAX ==> res.0[v] == m0[v]
            &&& forall|jj: int|
                0 <= jj < j ==> res.0[#[trigger] oa[s as int][jj] as int] != usize::MAX
            &&& count_occ(res.0, usize::MAX) + res.1.len() == count_occ(m0, usize::MAX)
        }),
    decreases j,
{
    let ts = oa[s as int];
    if j > 0 {
        lemma_bfs_push_src_state(n, oa, root, m0, s, j - 1);
        let prev = push_src_upto::<BFS>(m0, s, ts, j - 1);
        let t = ts[j - 1];
        assert((t as int) < n);
        let res = push_src_upto::<BFS>(m0, s, ts, j);
        if BFS::spec_check(prev.0, t as int) {
            assert(prev.0[s as int] != usize::MAX);
            assert(ts.contains(t));
            lemma_bfs_claim(n, oa, root, prev.0, s, t);
            assert(res.0 == prev.0.update(t as int, s));
        }
    }
}

/// What one push scan emits: exactly the targets it newly visited, each once.
#[verifier::rlimit(100)]
proof fn lemma_bfs_push_src_emit(
    n: nat,
    oa: Seq<Seq<usize>>,
    root: usize,
    m0: Seq<usize>,
    s: usize,
    j: int,
)
    requires
        adj_ok(n, oa),
        bfs_inv(n, oa, root, m0),
        (s as int) < n,
        m0[s as int] != usize::MAX,
        0 <= j <= oa[s as int].len(),
    ensures
        ({
            let res = push_src_upto::<BFS>(m0, s, oa[s as int], j);
            &&& forall|x: usize| #[trigger]
                res.1.contains(x) ==> (x as int) < m0.len() && m0[x as int] == usize::MAX
                    && res.0[x as int] != usize::MAX
            &&& forall|v: int|
                0 <= v < m0.len() && m0[v] == usize::MAX && #[trigger] res.0[v] != usize::MAX
                    ==> res.1.contains(v as usize)
            &&& distinct(res.1)
        }),
    decreases j,
{
    let ts = oa[s as int];
    if j > 0 {
        lemma_bfs_push_src_state(n, oa, root, m0, s, j - 1);
        lemma_bfs_push_src_emit(n, oa, root, m0, s, j - 1);
        let prev = push_src_upto::<BFS>(m0, s, ts, j - 1);
        let t = ts[j - 1];
        assert((t as int) < n);
        let res = push_src_upto::<BFS>(m0, s, ts, j);
        if BFS::spec_check(prev.0, t as int) {
            assert(prev.0[t as int] == usize::MAX);
            assert(ts.contains(t));
            lemma_bfs_claim(n, oa, root, prev.0, s, t);
            assert(res.0 == prev.0.update(t as int, s));
            assert(res.1 == prev.1.push(t));
            assert(m0[t as int] == usize::MAX);
            assert((s as int) < n && n <= usize::MAX);
            assert(s != usize::MAX);
            assert forall|x: usize| #[trigger] res.1.contains(x) implies (x as int) < m0.len()
                && m0[x as int] == usize::MAX && res.0[x as int] != usize::MAX by {
                let k = choose|k: int| 0 <= k < res.1.len() && res.1[k] == x;
                if k < prev.1.len() {
                    assert(prev.1[k] == x);
                    assert(prev.1.contains(x));
                    assert(res.0[x as int] == prev.0[x as int]);
                } else {
                    assert(x == t);
                    assert(res.0[t as int] == s);
                }
            }
            assert forall|v: int|
                0 <= v < m0.len() && m0[v] == usize::MAX && #[trigger] res.0[v]
                    != usize::MAX implies res.1.contains(v as usize) by {
                if v == t as int {
                    assert(res.1[prev.1.len() as int] == t);
                } else {
                    assert(prev.0[v] == res.0[v]);
                    assert(prev.1.contains(v as usize));
                    let k = choose|k: int| 0 <= k < prev.1.len() && prev.1[k] == v as usize;
                    assert(res.1[k] == v as usize);
                }
            }
            assert(distinct(res.1)) by {
                assert(!prev.1.contains(t)) by {
                    if prev.1.contains(t) {
                        assert(prev.0[t as int] != usize::MAX);
                    }
                }
                assert forall|a: int, b: int| 0 <= a < b < res.1.len() implies res.1[a]
                    != res.1[b] by {
                    if b < prev.1.len() {
                    } else {
                        assert(res.1[b] == t);
                        assert(res.1[a] == prev.1[a]);
                        assert(prev.1.contains(prev.1[a]));
                    }
                }
            }
        } else {
            assert(res.0 == prev.0 && res.1 == prev.1);
        }
    }
}

/// What the whole push fold does to the BFS state: the invariant is
/// preserved, the out-edges of the first `i` frontier members all lead to
/// visited nodes, and the unvisited count drops by the number of emissions.
#[verifier::rlimit(100)]
proof fn lemma_bfs_push_all_state(
    n: nat,
    oa: Seq<Seq<usize>>,
    root: usize,
    m0: Seq<usize>,
    fr: Seq<usize>,
    i: int,
)
    requires
        adj_ok(n, oa),
        bfs_inv(n, oa, root, m0),
        forall|x: int| 0 <= x < fr.len() ==> (#[trigger] fr[x] as int) < n,
        forall|x: int| 0 <= x < fr.len() ==> m0[#[trigger] fr[x] as int] != usize::MAX,
        0 <= i <= fr.len(),
    ensures
        ({
            let res = push_upto::<BFS>(m0, oa, fr, i);
            &&& bfs_inv(n, oa, root, res.0)
            &&& res.0.len() == m0.len()
            &&& forall|v: int| 0 <= v < m0.len() && m0[v] != usize::MAX ==> res.0[v] == m0[v]
            &&& forall|x: int, jj: int|
                0 <= x < i && 0 <= jj < oa[fr[x] as int].len() ==> res.0[#[trigger] oa[fr[x] as int][jj] as int]
                    != usize::MAX
            &&& count_occ(res.0, usize::MAX) + res.1.len() == count_occ(m0, usize::MAX)
        }),
    decreases i,
{
    if i > 0 {
        lemma_bfs_push_all_state(n, oa, root, m0, fr, i - 1);
        let prev = push_upto::<BFS>(m0, oa, fr, i - 1);
        let s = fr[i - 1];
        assert(prev.0[s as int] != usize::MAX) by {
            assert(m0[s as int] != usize::MAX);
        }
        lemma_bfs_push_src_state(n, oa, root, prev.0, s, oa[s as int].len() as int);
        let one = push_src::<BFS>(prev.0, s, oa[s as int]);
        let res = push_upto::<BFS>(m0, oa, fr, i);
        assert(res.0 == one.0 && res.1 == prev.1 + one.1);
        assert forall|x: int, jj: int|
            0 <= x < i && 0 <= jj < oa[fr[x] as int].len() implies res.0[#[trigger] oa[fr[x] as int][jj] as int]
            != usize::MAX by {
            if x < i - 1 {
                assert(prev.0[oa[fr[x] as int][jj] as int] != usize::MAX);
            }
        }
    }
}

/// What the whole push fold emits: exactly the newly visited nodes, each once.
#[verifier::rlimit(100)]
proof fn lemma_bfs_push_all_emit(
    n: nat,
    oa: Seq<Seq<usize>>,
    root: usize,
    m0: Seq<usize>,
    fr: Seq<usize>,
    i: int,
)
    requires
        adj_ok(n, oa),
        bfs_inv(n, oa, root, m0),
        forall|x: int| 0 <= x < fr.len() ==> (#[trigger] fr[x] as int) < n,
        forall|x: int| 0 <= x < fr.len() ==> m0[#[trigger] fr[x] as int] != usize::MAX,
        0 <= i <= fr.len(),
    ensures
        ({
            let res = push_upto::<BFS>(m0, oa, fr, i);
            &&& forall|x: usize| #[trigger]
                res.1.contains(x) ==> (x as int) < m0.len() && m0[x as int] == usize::MAX
                    && res.0[x as int] != usize::MAX
            &&& forall|v: int|
                0 <= v < m0.len() && m0[v] == usize::MAX && #[trigger] res.0[v] != usize::MAX
                    ==> res.1.contains(v as usize)
            &&& distinct(res.1)
        }),
    decreases i,
{
    if i > 0 {
        lemma_bfs_push_all_state(n, oa, root, m0, fr, i - 1);
        lemma_bfs_push_all_emit(n, oa, root, m0, fr, i - 1);
        let prev = push_upto::<BFS>(m0, oa, fr, i - 1);
        let s = fr[i - 1];
        assert(prev.0[s as int] != usize::MAX) by {
            assert(m0[s as int] != usize::MAX);
        }
        lemma_bfs_push_src_state(n, oa, root, prev.0, s, oa[s as int].len() as int);
        lemma_bfs_push_src_emit(n, oa, root, prev.0, s, oa[s as int].len() as int);
        let one = push_src::<BFS>(prev.0, s, oa[s as int]);
        let res = push_upto::<BFS>(m0, oa, fr, i);
        assert(res.0 == one.0 && res.1 == prev.1 + one.1);
        assert forall|x: usize| #[trigger] res.1.contains(x) implies (x as int) < m0.len()
            && m0[x as int] == usize::MAX && res.0[x as int] != usize::MAX by {
            let k = choose|k: int| 0 <= k < res.1.len() && res.1[k] == x;
            if k < prev.1.len() {
                assert(prev.1[k] == x);
                assert(prev.1.contains(x));
                assert(prev.0[x as int] != usize::MAX);
                assert(res.0[x as int] == prev.0[x as int]);
            } else {
                assert(one.1[k - prev.1.len()] == x);
                assert(one.1.contains(x));
            }
        }
        assert forall|v: int|
            0 <= v < m0.len() && m0[v] == usize::MAX && #[trigger] res.0[v]
                != usize::MAX implies res.1.contains(v as usize) by {
            if prev.0[v] != usize::MAX {
                assert(prev.1.contains(v as usize));
                let k = choose|k: int| 0 <= k < prev.1.len() && prev.1[k] == v as usize;
                assert(res.1[k] == v as usize);
            } else {
                assert(one.1.contains(v as usize));
                let k = choose|k: int| 0 <= k < one.1.len() && one.1[k] == v as usize;
                assert(res.1[prev.1.len() + k] == v as usize);
            }
        }
        assert(distinct(res.1)) by {
            assert forall|a: int, b: int| 0 <= a < b < res.1.len() implies res.1[a] != res.1[b] by {
                if a < prev.1.len() && b >= prev.1.len() {
                    let xa = res.1[a];
                    let xb = res.1[b];
                    assert(prev.1[a] == xa);
                    assert(prev.1.contains(xa));
                    assert(one.1[b - prev.1.len()] == xb);
                    assert(one.1.contains(xb));
                    assert(prev.0[xa as int] != usize::MAX);
                    assert(prev.0[xb as int] == usize::MAX);
                } else if a >= prev.1.len() {
                    assert(res.1[a] == one.1[a - prev.1.len()]);
                    assert(res.1[b] == one.1[b - prev.1.len()]);
                }
            }
        }
    }
}

/// What one pull scan of a target does to the BFS state: only the target's
/// own entry can change; the scan emits exactly when the target goes from
/// unvisited to visited; a target still unvisited after the scan had no
/// frontier member among its scanned in-neighbors.
#[verifier::rlimit(100)]
proof fn lemma_bfs_pull_tgt(
    n: nat,
    oa: Seq<Seq<usize>>,
    ia: Seq<Seq<usize>>,
    root: usize,
    m0: Seq<usize>,
    t: usize,
    fd: Seq<bool>,
    k: int,
)
    requires
        adj_ok(n, oa),
        adj_ok(n, ia),
        inverts(n, oa, ia),
        bfs_inv(n, oa, root, m0),
        (t as int) < n,
        fd.len() == n,
        forall|v: int| 0 <= v < fd.len() && fd[v] ==> m0[v] != usize::MAX,
        0 <= k <= ia[t as int].len(),
    ensures
        ({
            let res = pull_tgt_upto::<BFS>(m0, t, ia[t as int], fd, k);
            &&& bfs_inv(n, oa, root, res.0)
            &&& res.0.len() == m0.len()
            &&& forall|v: int| 0 <= v < m0.len() && v != t ==> res.0[v] == m0[v]
            &&& (res.1 <==> (m0[t as int] == usize::MAX && res.0[t as int] != usize::MAX))
            &&& (!res.1 ==> res.0[t as int] == m0[t as int])
            &&& (res.2 ==> res.0[t as int] != usize::MAX)
            &&& count_occ(res.0, usize::MAX) + (if res.1 {
                1nat
            } else {
                0nat
            }) == count_occ(m0, usize::MAX)
            &&& (res.0[t as int] == usize::MAX ==> forall|kk: int|
                0 <= kk < k ==> !(fd[#[trigger] ia[t as int][kk] as int]))
        }),
    decreases k,
{
    let srcs = ia[t as int];
    if k > 0 {
        lemma_bfs_pull_tgt(n, oa, ia, root, m0, t, fd, k - 1);
        let prev = pull_tgt_upto::<BFS>(m0, t, srcs, fd, k - 1);
        let res = pull_tgt_upto::<BFS>(m0, t, srcs, fd, k);
        let s = srcs[k - 1];
        assert((s as int) < n);
        if !prev.2 && (s as int) < fd.len() && fd[s as int] {
            assert(prev.0[s as int] != usize::MAX) by {
                assert(m0[s as int] != usize::MAX);
            }
            if prev.0[t as int] == usize::MAX {
                assert(ia[t as int][k - 1] == s);
                assert(oa[ia[t as int][k - 1] as int].contains(t as usize));
                assert(oa[s as int].contains(t));
                lemma_bfs_claim(n, oa, root, prev.0, s, t);
                assert(res.0 == prev.0.update(t as int, s));
                assert(m0[t as int] == usize::MAX);
                assert((s as int) < n && n <= usize::MAX);
                assert(s != usize::MAX);
                assert(res.0[t as int] == s);
            } else {
                assert(res.0 == prev.0 && res.1 == prev.1);
            }
        }
    }
}

/// What the whole pull fold does over the first `t` targets: entries from `t`
/// on and visited entries are untouched, the flag of a processed target says
/// exactly that it was newly visited, the unvisited count drops by the number
/// of set flags, and a processed target left unvisited had no frontier member
/// among its in-neighbors.
#[verifier::rlimit(100)]
proof fn lemma_bfs_pull_all(
    n: nat,
    oa: Seq<Seq<usize>>,
    ia: Seq<Seq<usize>>,
    root: usize,
    m0: Seq<usize>,
    fd: Seq<bool>,
    t: int,
)
    requires
        adj_ok(n, oa),
        adj_ok(n, ia),
        inverts(n, oa, ia),
        bfs_inv(n, oa, root, m0),
        fd.len() == n,
        forall|v: int| 0 <= v < fd.len() && fd[v] ==> m0[v] != usize::MAX,
        0 <= t <= n,
    ensures
        ({
            let res = pull_upto::<BFS>(m0, ia, fd, t);
            &&& bfs_inv(n, oa, root, res.0)
            &&& res.0.len() == m0.len()
            &&& res.1.len() == t
            &&& forall|v: int| t <= v < m0.len() ==> res.0[v] == m0[v]
            &&& forall|v: int| 0 <= v < m0.len() && m0[v] != usize::MAX ==> res.0[v] == m0[v]
            &&& forall|v: int|
                0 <= v < t ==> (#[trigger] res.1[v] <==> (m0[v] == usize::MAX && res.0[v]
                    != usize::MAX))
            &&& count_occ(res.0, usize::MAX) + count_true(res.1) == count_occ(m0, usize::MAX)
            &&& forall|v: int, jj: int|
                0 <= v < t && res.0[v] == usize::MAX && 0 <= jj < ia[v].len() ==> !(
                fd[#[trigger] ia[v][jj] as int])
        }),
    decreases t,
{
    if t > 0 {
        lemma_bfs_pull_all(n, oa, ia, root, m0, fd, t - 1);
        let prev = pull_upto::<BFS>(m0, ia, fd, t - 1);
        let res = pull_upto::<BFS>(m0, ia, fd, t);
        assert(prev.0[t - 1] == m0[t - 1]);
        if BFS::spec_check(prev.0, t - 1) {
            assert forall|v: int| 0 <= v < fd.len() && fd[v] implies prev.0[v] != usize::MAX by {
                assert(m0[v] != usize::MAX);
            }
            lemma_bfs_pull_tgt(
                n,
                oa,
                ia,
                root,
                prev.0,
                (t - 1) as usize,
                fd,
                ia[t - 1].len() as int,
            );
            let one = pull_tgt::<BFS>(prev.0, (t - 1) as usize, ia[t - 1], fd);
            assert(res.0 == one.0 && res.1 == prev.1.push(one.1));
            assert(count_true(res.1) == count_true(prev.1) + if one.1 {
                1nat
            } else {
                0nat
            }) by {
                assert(res.1.drop_last() =~= prev.1);
                assert(res.1.last() == one.1);
            }
            assert forall|v: int|
                0 <= v < t implies (#[trigger] res.1[v] <==> (m0[v] == usize::MAX && res.0[v]
                    != usize::MAX)) by {
                if v < t - 1 {
                    assert(res.1[v] == prev.1[v]);
                    assert(res.0[v] == prev.0[v]);
                }
            }
        } else {
            assert(res.0 == prev.0 && res.1 == prev.1.push(false));
            assert(count_true(res.1) == count_true(prev.1)) by {
                assert(res.1.drop_last() =~= prev.1);
                assert(res.1.last() == false);
            }
            assert forall|v: int|
                0 <= v < t implies (#[trigger] res.1[v] <==> (m0[v] == usize::MAX && res.0[v]
                    != usize::MAX)) by {
                if v < t - 1 {
                    assert(res.1[v] == prev.1[v]);
                }
            }
        }
    }
}

/// Once the visited set is closed under out-edges, everything reachable from
/// a visited node is visited: walk the path.
proof fn lemma_bfs_path_visited(n: nat, oa: Seq<Seq<usize>>, m: Seq<usize>, p: Seq<usize>)
    requires
        m.len() == n,
        bfs_closed_except(n, oa, m, Set::empty()),
        is_path(n, oa, p),
        m[p.first() as int] != usize::MAX,
    ensures
        m[p.last() as int] != usize::MAX,
    decreases p.len(),
{
    if p.len() > 1 {
        let q = p.drop_last();
        assert(is_path(n, oa, q)) by {
            assert forall|i: int| 0 <= i < q.len() - 1 implies #[trigger] oa[q[i] as int].contains(
                q[i + 1],
            ) by {
                assert(q[i] == p[i] && q[i + 1] == p[i + 1]);
            }
        }
        lemma_bfs_path_visited(n, oa, m, q);
        let i = p.len() - 2;
        let u = p[i];
        let w = p.last();
        assert(oa[p[i] as int].contains(p[i + 1]));
        assert(oa[u as int].contains(w));
        let j = choose|j: int| 0 <= j < oa[u as int].len() && oa[u as int][j] == w;
        assert(m[oa[u as int][j] as int] != usize::MAX);
    }
}

/// Breadth-first search from `root`. The result holds one parent pointer per
/// node: the root points at itself; a node is visited (its entry is not
/// `usize::MAX`) exactly when it is reachable from the root; and every other
/// visited node's parent is an in-range node with an edge to it.
#[verifier::loop_isolation(false)]
#[verifier::rlimit(100)]
pub fn bfs(graph: &AdjacencyGraph, root: usize) -> (parents: Vec<usize>)
    requires
        graph.wf(),
        (root as int) < graph.spec_node_count(),
    ensures
        parents@.len() == graph.spec_node_count(),
        parents@[root as int] == root,
        forall|v: int|
            0 <= v < parents@.len() ==> (#[trigger] parents@[v] != usize::MAX <==> reachable(
                graph.spec_node_count(),
                graph.out_adj(),
                root,
                v as usize,
            )),
        forall|v: int|
            0 <= v < parents@.len() && v != root && #[trigger] parents@[v] != usize::MAX ==> (
            parents@[v] as int) < parents@.len() && graph.out_adj()[parents@[v] as int].contains(
                v as usize,
            ) && parents@[parents@[v] as int] != usize::MAX,
{
    let ghost n = graph.spec_node_count();
    let ghost oa = graph.out_adj();
    let ghost ia = graph.inc_adj();
    proof {
        graph_shape(*graph);
    }
    let node_count = graph.node_count();
    let mut bfs = BFS::new(node_count);
    bfs.parents[root] = root;
    proof {
        lemma_reachable_refl(n, oa, root);
    }
    let mut frontier = NodeSubset::single(node_count, root);
    while frontier.subset_count() != 0
        invariant
            frontier_ok(frontier, n),
            frontier.node_count == node_count,
            bfs@.len() == n,
            bfs_inv(n, oa, root, bfs@),
            members_visited(bfs@, frontier.members()),
            bfs_closed_except(n, oa, bfs@, frontier.members()),
        decreases count_occ(bfs@, usize::MAX), frontier.subset_count,
    {
        let ghost m0 = bfs@;
        let ghost fr0 = frontier;
        relationship_map(graph, &mut frontier, &mut bfs);
        proof {
            bfs_reestablish(*graph, root, fr0, m0, frontier, bfs@);
        }
    }
    proof {
        crate::node_set::lemma_empty_members(frontier);
        assert(frontier.members() =~= Set::<usize>::empty());
        assert(bfs_closed_except(n, oa, bfs@, Set::empty()));
        assert forall|v: int|
            0 <= v < bfs@.len() && reachable(n, oa, root, v as usize) implies #[trigger] bfs@[v]
            != usize::MAX by {
            reveal(reachable);
            let p = choose|p: Seq<usize>|
                is_path(n, oa, p) && p.first() == root && p.last() == v as usize;
            lemma_bfs_path_visited(n, oa, bfs@, p);
        }
        assert forall|v: int|
            0 <= v < bfs@.len() && v != root && #[trigger] bfs@[v] != usize::MAX implies bfs@[bfs@[v] as int]
            != usize::MAX by {
            assert(reachable(n, oa, root, bfs@[v] as usize));
        }
    }
    bfs.parents
}

/// The adjacency views of a well-formed graph satisfy the plain-sequence
/// hypotheses of the fold lemmas.
proof fn graph_shape(g: AdjacencyGraph)
    requires
        g.wf(),
    ensures
        adj_ok(g.spec_node_count(), g.out_adj()),
        adj_ok(g.spec_node_count(), g.inc_adj()),
        inverts(g.spec_node_count(), g.out_adj(), g.inc_adj()),
        inverts_back(g.spec_node_count(), g.out_adj(), g.inc_adj()),
{
    vstd::std_specs::vec::axiom_spec_len(&g.out.nodes);
    lemma_adj_views(g);
    let n = g.spec_node_count();
    assert forall|t: int, k: int|
        0 <= t < n && 0 <= k < g.inc_adj()[t].len() implies #[trigger] g.out_adj()[g.inc_adj()[t][k] as int].contains(
        t as usize,
    ) by {
        let s = g.inc_adj()[t][k];
        assert(g.inc_adj()[t].contains(s));
        lemma_count_occ_positive(g.inc_adj()[t], s);
        count_consistency(g, s as int, t);
        lemma_count_occ_positive(g.out_adj()[s as int], t as usize);
    }
    assert forall|s: int, j: int|
        0 <= s < n && 0 <= j < g.out_adj()[s].len() implies g.inc_adj()[(
        #[trigger] g.out_adj()[s][j]) as int].contains(s as usize) by {
        let t = g.out_adj()[s][j];
        assert(g.out_adj()[s].contains(t));
        lemma_count_occ_positive(g.out_adj()[s], t);
        count_consistency(g, s, t as int);
        lemma_count_occ_positive(g.inc_adj()[t as int], s as usize);
    }
}

/// The inverse-count clause of graph well-formedness, lifted to the opaque
/// adjacency views.
proof fn count_consistency(g: AdjacencyGraph, s: int, t: int)
    requires
        g.wf(),
        0 <= s < g.spec_node_count(),
        0 <= t < g.spec_node_count(),
    ensures
        count_occ(g.inc_adj()[t], s as usize) == count_occ(g.out_adj()[s], t as usize),
{
    reveal(AdjacencyGraph::out_adj);
    reveal(AdjacencyGraph::inc_adj);
}

/// One round of BFS: from the primitives' exact contract, re-establish the
/// loop invariants and the strict decrease of the termination measure.
#[verifier::rlimit(100)]
proof fn bfs_reestablish(
    g: AdjacencyGraph,
    root: usize,
    fr0: NodeSubset,
    m0: Seq<usize>,
    fr1: NodeSubset,
    m1: Seq<usize>,
)
    requires
        g.wf(),
        frontier_ok(fr0, g.spec_node_count()),
        fr0.subset_count != 0,
        bfs_inv(g.spec_node_count(), g.out_adj(), root, m0),
        members_visited(m0, fr0.members()),
        bfs_closed_except(g.spec_node_count(), g.out_adj(), m0, fr0.members()),
        rm_post::<BFS>(g, fr0, m0, fr1, m1),
        fr1.wf(),
        fr1.node_count == fr0.node_count,
        m1.len() == g.spec_node_count(),
    ensures
        frontier_ok(fr1, g.spec_node_count()),
        bfs_inv(g.spec_node_count(), g.out_adj(), root, m1),
        members_visited(m1, fr1.members()),
        bfs_closed_except(g.spec_node_count(), g.out_adj(), m1, fr1.members()),
        count_occ(m1, usize::MAX) <= count_occ(m0, usize::MAX),
        fr1.subset_count != 0 ==> count_occ(m1, usize::MAX) < count_occ(m0, usize::MAX),
{
    let n = g.spec_node_count();
    let oa = g.out_adj();
    let ia = g.inc_adj();
    graph_shape(g);
    if rm_work(g, fr0) > g.threshold {
        // Pull path.
        assert(fr0.is_dense || fr0.sparse is Some);
        let fd = dense_form(fr0, n);
        let res = pull_upto::<BFS>(m0, ia, fd, n as int);
        assert(fd.len() == n);
        assert forall|v: int| 0 <= v < fd.len() && fd[v] implies m0[v] != usize::MAX by {
            members_dense_agree(fr0, n, v as usize);
            assert(fr0.members().contains(v as usize));
        }
        lemma_bfs_pull_all(n, oa, ia, root, m0, fd, n as int);
        assert(m1 == res.0 && fr1.dense_seq() == res.1);
        assert(fr1.members() =~= Set::new(
            |v: usize| (v as int) < res.1.len() && res.1[v as int],
        ));
        assert(members_visited(m1, fr1.members()));
        assert(bfs_closed_except(n, oa, m1, fr1.members())) by {
            assert forall|v: int, j: int|
                0 <= v < m1.len() && m1[v] != usize::MAX && !fr1.members().contains(v as usize) && 0
                    <= j < oa[v].len() implies m1[#[trigger] oa[v][j] as int] != usize::MAX by {
                let t = oa[v][j];
                assert((t as int) < n);
                if m1[t as int] == usize::MAX {
                    members_dense_agree(fr0, n, v as usize);
                    if m0[v] != usize::MAX && !fd[v] {
                        assert(m0[t as int] != usize::MAX);
                        assert(m1[t as int] != usize::MAX);
                    } else if m0[v] != usize::MAX && fd[v] {
                        lemma_adjacency_inverse(g, v, t as int);
                        assert(g.inc_adj()[t as int].contains(v as usize));
                        let k = choose|k: int|
                            0 <= k < ia[t as int].len() && ia[t as int][k] == v as usize;
                        assert(!(fd[ia[t as int][k] as int]));
                        assert(false);
                    } else {
                        assert(res.1[v]);
                        assert(fr1.members().contains(v as usize));
                        assert(false);
                    }
                }
            }
        }
        assert(count_occ(m1, usize::MAX) + count_true(res.1) == count_occ(m0, usize::MAX));
        if fr1.subset_count != 0 {
            assert(count_true(res.1) == fr1.subset_count);
        }
    } else {
        // Push path.
        let fs = sparse_form(fr0);
        let res = push_upto::<BFS>(m0, oa, fs, fs.len() as int);
        sparse_form_members(fr0, n);
        assert forall|x: int| 0 <= x < fs.len() implies (#[trigger] fs[x] as int) < n
            && m0[fs[x] as int] != usize::MAX by {
            sparse_form_range(fr0, n, x);
            assert(fs.to_set().contains(fs[x]));
            assert(fr0.members().contains(fs[x]));
        }
        lemma_bfs_push_all_state(n, oa, root, m0, fs, fs.len() as int);
        lemma_bfs_push_all_emit(n, oa, root, m0, fs, fs.len() as int);
        assert(m1 == res.0 && fr1.sparse_seq() == res.1);
        assert(fr1.members() =~= res.1.to_set());
        assert(frontier_ok(fr1, n)) by {
            assert(distinct(res.1));
            assert forall|i: int| 0 <= i < res.1.len() implies (#[trigger] res.1[i] as int) < n by {
                assert(res.1.contains(res.1[i]));
            }
        }
        assert(members_visited(m1, fr1.members())) by {
            assert forall|v: usize| #[trigger] fr1.members().contains(v) implies (v as int)
                < m1.len() && m1[v as int] != usize::MAX by {
                assert(res.1.contains(v));
            }
        }
        assert(bfs_closed_except(n, oa, m1, fr1.members())) by {
            assert forall|v: int, j: int|
                0 <= v < m1.len() && m1[v] != usize::MAX && !fr1.members().contains(v as usize) && 0
                    <= j < oa[v].len() implies m1[#[trigger] oa[v][j] as int] != usize::MAX by {
                let t = oa[v][j];
                if m0[v] == usize::MAX {
                    assert(res.1.contains(v as usize));
                    assert(fr1.members().contains(v as usize));
                    assert(false);
                } else if fr0.members().contains(v as usize) {
                    assert(fs.to_set().contains(v as usize));
                    let x = choose|x: int| 0 <= x < fs.len() && fs[x] == v as usize;
                    assert(m1[oa[fs[x] as int][j] as int] != usize::MAX);
                } else {
                    assert(m0[t as int] != usize::MAX);
                    assert(m1[t as int] == m0[t as int]);
                }
            }
        }
        assert(count_occ(m1, usize::MAX) + res.1.len() == count_occ(m0, usize::MAX));
    }
}

/// Membership of the dense form agrees with the frontier's member set.
proof fn members_dense_agree(fr: NodeSubset, n: nat, v: usize)
    requires
        frontier_ok(fr, n),
        fr.is_dense || fr.sparse is Some,
        (v as int) < n,
    ensures
        dense_form(fr, n)[v as int] == fr.members().contains(v),
{
    if fr.dense is Some {
    } else {
    }
}

/// The sparse form carries exactly the frontier's member set, without
/// duplicates.
proof fn sparse_form_members(fr: NodeSubset, n: nat)
    requires
        frontier_ok(fr, n),
    ensures
        sparse_form(fr).to_set() =~= fr.members(),
        distinct(sparse_form(fr)),
{
    if fr.sparse is Some {
        assert(sparse_form(fr) == fr.sparse_seq());
    } else if fr.dense is Some {
        vstd::std_specs::vec::axiom_spec_len(&fr.dense->0);
        lemma_sparse_of_dense(fr.dense_seq());
        let sp = sparse_of_dense(fr.dense_seq());
        assert forall|x: usize| #[trigger] sp.to_set().contains(x) implies fr.members().contains(
            x,
        ) by {
            assert(sp.contains(x));
        }
        assert forall|x: usize| #[trigger] fr.members().contains(x) implies sp.to_set().contains(
            x,
        ) by {
            assert(sp.contains(x));
        }
        assert(distinct(sp)) by {
            assert forall|a: int, b: int| 0 <= a < b < sp.len() implies sp[a] != sp[b] by {
                assert(sp[a] < sp[b]);
            }
        }
    } else {
        assert(fr.members() =~= Set::<usize>::empty());
        assert forall|x: usize| !(#[trigger] sparse_form(fr).to_set().contains(x)) by {
            if sparse_form(fr).contains(x) {
                let i = choose|i: int| 0 <= i < sparse_form(fr).len() && sparse_form(fr)[i] == x;
            }
        }
        assert(sparse_form(fr).to_set() =~= Set::<usize>::empty());
    }
}

/// The sparse form's entries lie inside the universe.
proof fn sparse_form_range(fr: NodeSubset, n: nat, x: int)
    requires
        frontier_ok(fr, n),
        0 <= x < sparse_form(fr).len(),
    ensures
        (sparse_form(fr)[x] as int) < n,
{
    if fr.sparse is Some {
    } else if fr.dense is Some {
        vstd::std_specs::vec::axiom_spec_len(&fr.dense->0);
        lemma_sparse_of_dense(fr.dense_seq());
    }
}

} // verus!

verus! {

// ---------------------------------------------------------------------------
// CC: connected components by minimum-label propagation.
// ---------------------------------------------------------------------------

/// Label-propagation state: each node's current component label, and the
/// snapshot the previous round's filter took of it.
pub struct CC {
    pub ids: Vec<usize>,
    pub prev_ids: Vec<usize>,
}

impl View for CC {
    type V = (Seq<usize>, Seq<usize>);

    open spec fn view(&self) -> (Seq<usize>, Seq<usize>) {
        (self.ids@, self.prev_ids@)
    }
}

impl CC {
    pub fn new(node_count: usize) -> (r: Self)
        ensures
            r.ids@.len() == node_count,
            r.prev_ids@.len() == node_count,
            forall|v: int| 0 <= v < node_count ==> r.ids@[v] == v,
            forall|v: int| 0 <= v < node_count ==> r.prev_ids@[v] == 0,
    {
        let mut ids: Vec<usize> = Vec::new();
        let mut prev_ids: Vec<usize> = Vec::new();
        let mut i: usize = 0;
        while i < node_count
            invariant
                i <= node_count,
                ids@.len() == i,
                prev_ids@.len() == i,
                forall|v: int| 0 <= v < i ==> ids@[v] == v,
                forall|v: int| 0 <= v < i ==> prev_ids@[v] == 0,
            decreases node_count - i,
        {
            ids.push(i);
            prev_ids.push(0);
            i = i + 1;
        }
        CC { ids, prev_ids }
    }

    /// Lower the slot to `value` if that shrinks it; the sequential meaning
    /// of the atomic write-min loop.
    pub fn write_min(ids: &mut Vec<usize>, target: usize, value: usize) -> (shrunk: bool)
        requires
            target < old(ids)@.len(),
        ensures
            shrunk == (value < old(ids)@[target as int]),
            shrunk ==> final(ids)@ == old(ids)@.update(target as int, value),
            !shrunk ==> final(ids)@ == old(ids)@,
    {
        if value < ids[target] {
            ids[target] = value;
            true
        } else {
            false
        }
    }
}

impl RelationshipMapper for CC {
    open spec fn state_len(m: (Seq<usize>, Seq<usize>)) -> nat {
        if m.0.len() <= m.1.len() {
            m.0.len()
        } else {
            m.1.len()
        }
    }

    /// Propagate the smaller label across the edge; the target is emitted
    /// exactly when the write shrank it and its label still matched the
    /// snapshot, so each target enters the output frontier at most once per
    /// round.
    open spec fn spec_update(m: (Seq<usize>, Seq<usize>), source: int, target: int) -> (
        (Seq<usize>, Seq<usize>),
        bool,
    ) {
        let (ids, prev) = m;
        if ids[source] < ids[target] {
            ((ids.update(target, ids[source]), prev), ids[target] == prev[target])
        } else {
            (m, false)
        }
    }

    open spec fn spec_check(m: (Seq<usize>, Seq<usize>), target: int) -> bool {
        true
    }

    open spec fn spec_has_no_result() -> bool {
        false
    }

    proof fn update_preserves_len(m: (Seq<usize>, Seq<usize>), source: int, target: int) {
    }

    fn update(&mut self, source: usize, target: usize) -> (r: bool) {
        let candidate = self.ids[source];
        let original_id = self.ids[target];
        let shrunk = Self::write_min(&mut self.ids, target, candidate);
        shrunk && original_id == self.prev_ids[target]
    }

    fn check(&self, target: usize) -> (r: bool) {
        true
    }

    fn has_no_result(&self) -> (r: bool) {
        false
    }
}

impl crate::ligra::NodeMapper for CC {
    open spec fn state_len(m: (Seq<usize>, Seq<usize>)) -> nat {
        if m.0.len() <= m.1.len() {
            m.0.len()
        } else {
            m.1.len()
        }
    }

    /// Snapshot the node's label and keep the node.
    open spec fn spec_update(m: (Seq<usize>, Seq<usize>), node: int) -> (
        (Seq<usize>, Seq<usize>),
        bool,
    ) {
        ((m.0, m.1.update(node, m.0[node])), true)
    }

    proof fn update_preserves_len(m: (Seq<usize>, Seq<usize>), node: int) {
    }

    fn update(&mut self, node: usize) -> (r: bool) {
        let id = self.ids[node];
        self.prev_ids[node] = id;
        true
    }
}

/// Total of all labels; the termination measure of label propagation.
pub open spec fn sum_ids(s: Seq<usize>) -> nat
    decreases s.len(),
{
    if s.len() == 0 {
        0
    } else {
        sum_ids(s.drop_last()) + (s.last() as nat)
    }
}

pub proof fn lemma_sum_ids_update(s: Seq<usize>, i: int, x: usize)
    requires
        0 <= i < s.len(),
    ensures
        sum_ids(s.update(i, x)) == sum_ids(s) - s[i] + x,
    decreases s.len(),
{
    if i == s.len() - 1 {
        assert(s.update(i, x).drop_last() =~= s.drop_last());
    } else {
        assert(s.update(i, x).drop_last() =~= s.drop_last().update(i, x));
        lemma_sum_ids_update(s.drop_last(), i, x);
    }
}

/// The CC safety invariant: labels are never above the node's own id, and
/// every label names a node with a directed path to its holder.
pub open spec fn cc_inv(n: nat, oa: Seq<Seq<usize>>, m: (Seq<usize>, Seq<usize>)) -> bool {
    &&& m.0.len() == n
    &&& m.1.len() == n
    &&& forall|v: int| 0 <= v < n ==> (#[trigger] m.0[v] as int) <= v
    &&& forall|v: int| 0 <= v < n ==> reachable(n, oa, #[trigger] m.0[v], v as usize)
}

/// Outside `fs`, every snapshot still matches its label.
pub open spec fn cc_synced_except(
    n: nat,
    m: (Seq<usize>, Seq<usize>),
    fs: Set<usize>,
) -> bool {
    forall|v: int| 0 <= v < n && !fs.contains(v as usize) ==> #[trigger] m.1[v] == m.0[v]
}

/// Outside `fs`, every out-edge is stable: the target's label is no larger
/// than the source's.
pub open spec fn cc_closed_except(
    n: nat,
    oa: Seq<Seq<usize>>,
    ids: Seq<usize>,
    fs: Set<usize>,
) -> bool {
    forall|s: int, j: int|
        0 <= s < n && !fs.contains(s as usize) && 0 <= j < oa[s].len() ==> ids[#[trigger] oa[s][j] as int]
            <= ids[s]
}

/// One shrinking write across an edge preserves the CC invariant and strictly
/// lowers the label total.
proof fn lemma_cc_claim(
    n: nat,
    oa: Seq<Seq<usize>>,
    m: (Seq<usize>, Seq<usize>),
    s: usize,
    t: usize,
)
    requires
        adj_ok(n, oa),
        cc_inv(n, oa, m),
        (s as int) < n,
        (t as int) < n,
        oa[s as int].contains(t),
        m.0[s as int] < m.0[t as int],
    ensures
        cc_inv(n, oa, (m.0.update(t as int, m.0[s as int]), m.1)),
        sum_ids(m.0.update(t as int, m.0[s as int])) < sum_ids(m.0),
{
    let l = m.0[s as int];
    let ids1 = m.0.update(t as int, l);
    lemma_sum_ids_update(m.0, t as int, l);
    assert(reachable(n, oa, l, s));
    lemma_reachable_step(n, oa, l, s, t);
    assert forall|v: int| 0 <= v < n implies reachable(n, oa, #[trigger] ids1[v], v as usize) by {
        if v != t as int {
            assert(ids1[v] == m.0[v]);
        }
    }
}

/// What one push scan does to the CC state, relative to the synced state
/// `base` the round started from: the invariant is preserved, the snapshots
/// are untouched, labels never grow, the total shrinks with every emission,
/// the emitted targets (strictly below their snapshots afterwards) are
/// distinct, a target whose label was still at its round-start value is
/// emitted if the scan changes it, and every scanned target ends no larger
/// than the source's label at scan start.
#[verifier::rlimit(100)]
proof fn lemma_cc_push_src(
    n: nat,
    oa: Seq<Seq<usize>>,
    base: (Seq<usize>, Seq<usize>),
    m0: (Seq<usize>, Seq<usize>),
    s: usize,
    j: int,
)
    requires
        adj_ok(n, oa),
        cc_inv(n, oa, m0),
        base.0.len() == n,
        forall|v: int| 0 <= v < n ==> #[trigger] base.1[v] == base.0[v],
        m0.1 == base.1,
        forall|v: int| 0 <= v < n ==> #[trigger] m0.0[v] <= base.0[v],
        (s as int) < n,
        0 <= j <= oa[s as int].len(),
    ensures
        ({
            let res = push_src_upto::<CC>(m0, s, oa[s as int], j);
            &&& cc_inv(n, oa, res.0)
            &&& res.0.1 == m0.1
            &&& forall|v: int| 0 <= v < n ==> #[trigger] res.0.0[v] <= m0.0[v]
            &&& sum_ids(res.0.0) + res.1.len() <= sum_ids(m0.0)
            &&& forall|x: usize| #[trigger]
                res.1.contains(x) ==> (x as int) < n && res.0.0[x as int] < base.1[x as int]
            &&& distinct(res.1)
            &&& forall|v: int|
                0 <= v < n ==> #[trigger] res.0.0[v] == m0.0[v] || res.1.contains(v as usize)
                    || m0.0[v] != base.0[v]
            &&& forall|jj: int|
                0 <= jj < j ==> res.0.0[#[trigger] oa[s as int][jj] as int] <= m0.0[s as int]
        }),
    decreases j,
{
    let ts = oa[s as int];
    if j > 0 {
        lemma_cc_push_src(n, oa, base, m0, s, j - 1);
        let prev = push_src_upto::<CC>(m0, s, ts, j - 1);
        let t = ts[j - 1];
        assert(ts.contains(t));
        assert((t as int) < n);
        let res = push_src_upto::<CC>(m0, s, ts, j);
        if prev.0.0[s as int] < prev.0.0[t as int] {
            let emit = prev.0.0[t as int] == prev.0.1[t as int];
            lemma_cc_claim(n, oa, prev.0, s, t);
            assert(res.0.0 == prev.0.0.update(t as int, prev.0.0[s as int]));
            assert forall|jj: int| 0 <= jj < j implies res.0.0[#[trigger] ts[jj] as int]
                <= m0.0[s as int] by {
                if jj < j - 1 {
                    if ts[jj] == t {
                    } else {
                        assert(res.0.0[ts[jj] as int] == prev.0.0[ts[jj] as int]);
                    }
                } else {
                    assert(res.0.0[t as int] == prev.0.0[s as int]);
                }
            }
            if emit {
                assert(res.1 == prev.1.push(t));
                assert(res.0.0[t as int] < base.1[t as int]) by {
                    assert(prev.0.1[t as int] == base.1[t as int]);
                }
                assert forall|x: usize| #[trigger] res.1.contains(x) implies (x as int) < n
                    && res.0.0[x as int] < base.1[x as int] by {
                    let k = choose|k: int| 0 <= k < res.1.len() && res.1[k] == x;
                    if k < prev.1.len() {
                        assert(prev.1[k] == x);
                        assert(prev.1.contains(x));
                        assert(res.0.0[x as int] <= prev.0.0[x as int]) by {
                            if x == t {
                            } else {
                                assert(res.0.0[x as int] == prev.0.0[x as int]);
                            }
                        }
                    } else {
                        assert(x == t);
                    }
                }
                assert(distinct(res.1)) by {
                    assert(!prev.1.contains(t)) by {
                        if prev.1.contains(t) {
                            assert(prev.0.0[t as int] < base.1[t as int]);
                            assert(prev.0.1[t as int] == base.1[t as int]);
                        }
                    }
                    assert forall|a: int, b: int| 0 <= a < b < res.1.len() implies res.1[a]
                        != res.1[b] by {
                        if b < prev.1.len() {
                        } else {
                            assert(res.1[b] == t);
                            assert(res.1[a] == prev.1[a]);
                            assert(prev.1.contains(prev.1[a]));
                        }
                    }
                }
                assert forall|v: int|
                    0 <= v < n implies #[trigger] res.0.0[v] == m0.0[v] || res.1.contains(
                    v as usize,
                ) || m0.0[v] != base.0[v] by {
                    if v == t as int {
                        assert(res.1[prev.1.len() as int] == t);
                        assert(res.1.contains(t));
                    } else {
                        assert(res.0.0[v] == prev.0.0[v]);
                        if prev.1.contains(v as usize) {
                            let k = choose|k: int| 0 <= k < prev.1.len() && prev.1[k] == v as usize;
                            assert(res.1[k] == v as usize);
                        }
                    }
                }
            } else {
                assert(res.1 == prev.1);
                assert forall|x: usize| #[trigger] res.1.contains(x) implies (x as int) < n
                    && res.0.0[x as int] < base.1[x as int] by {
                    if x == t {
                        assert(res.0.0[x as int] <= prev.0.0[x as int]);
                    } else {
                        assert(res.0.0[x as int] == prev.0.0[x as int]);
                    }
                }
                // The write was not emitted, so the target's label had
                // already left its round-start value.
                assert forall|v: int|
                    0 <= v < n implies #[trigger] res.0.0[v] == m0.0[v] || res.1.contains(
                    v as usize,
                ) || m0.0[v] != base.0[v] by {
                    if v == t as int && m0.0[v] == base.0[v] && !res.1.contains(v as usize) {
                        if prev.0.0[t as int] == m0.0[t as int] {
                            assert(prev.0.1[t as int] == base.1[t as int]);
                            assert(base.1[t as int] == base.0[t as int]);
                            assert(false);
                        }
                    } else if v != t as int {
                        assert(res.0.0[v] == prev.0.0[v]);
                    }
                }
            }
        } else {
            assert(res == prev);
            assert forall|jj: int| 0 <= jj < j implies res.0.0[#[trigger] ts[jj] as int]
                <= m0.0[s as int] by {
                if jj == j - 1 {
                    assert(res.0.0[t as int] <= res.0.0[s as int]);
                    assert(res.0.0[s as int] <= m0.0[s as int]);
                }
            }
        }
    }
}

/// What the whole push fold does to the CC state: as the per-source scan,
/// aggregated — in particular, every label change is matched by an emission,
/// and every out-edge of a scanned source is left stable against the source's
/// round-start label.
#[verifier::rlimit(100)]
proof fn lemma_cc_push_all(
    n: nat,
    oa: Seq<Seq<usize>>,
    m0: (Seq<usize>, Seq<usize>),
    fr: Seq<usize>,
    i: int,
)
    requires
        adj_ok(n, oa),
        cc_inv(n, oa, m0),
        forall|v: int| 0 <= v < n ==> #[trigger] m0.1[v] == m0.0[v],
        forall|x: int| 0 <= x < fr.len() ==> (#[trigger] fr[x] as int) < n,
        0 <= i <= fr.len(),
    ensures
        ({
            let res = push_upto::<CC>(m0, oa, fr, i);
            &&& cc_inv(n, oa, res.0)
            &&& res.0.1 == m0.1
            &&& forall|v: int| 0 <= v < n ==> #[trigger] res.0.0[v] <= m0.0[v]
            &&& sum_ids(res.0.0) + res.1.len() <= sum_ids(m0.0)
            &&& forall|x: usize| #[trigger]
                res.1.contains(x) ==> (x as int) < n && res.0.0[x as int] < m0.1[x as int]
            &&& distinct(res.1)
            &&& forall|v: int|
                0 <= v < n ==> #[trigger] res.0.0[v] == m0.0[v] || res.1.contains(v as usize)
            &&& forall|x: int, jj: int|
                0 <= x < i && 0 <= jj < oa[fr[x] as int].len() ==> res.0.0[#[trigger] oa[fr[x] as int][jj] as int]
                    <= m0.0[fr[x] as int]
        }),
    decreases i,
{
    if i > 0 {
        lemma_cc_push_all(n, oa, m0, fr, i - 1);
        let prev = push_upto::<CC>(m0, oa, fr, i - 1);
        let s = fr[i - 1];
        lemma_cc_push_src(n, oa, m0, prev.0, s, oa[s as int].len() as int);
        let one = push_src::<CC>(prev.0, s, oa[s as int]);
        let res = push_upto::<CC>(m0, oa, fr, i);
        assert(res.0 == one.0 && res.1 == prev.1 + one.1);
        assert forall|x: usize| #[trigger] res.1.contains(x) implies (x as int) < n
            && res.0.0[x as int] < m0.1[x as int] by {
            let k = choose|k: int| 0 <= k < res.1.len() && res.1[k] == x;
            if k < prev.1.len() {
                assert(prev.1[k] == x);
                assert(prev.1.contains(x));
                assert(res.0.0[x as int] <= prev.0.0[x as int]);
            } else {
                assert(one.1[k - prev.1.len()] == x);
                assert(one.1.contains(x));
            }
        }
        assert forall|v: int|
            0 <= v < n implies #[trigger] res.0.0[v] == m0.0[v] || res.1.contains(v as usize) by {
            if res.0.0[v] != m0.0[v] {
                if one.1.contains(v as usize) {
                    let k = choose|k: int| 0 <= k < one.1.len() && one.1[k] == v as usize;
                    assert(res.1[prev.1.len() + k] == v as usize);
                } else if res.0.0[v] == prev.0.0[v] || prev.0.0[v] != m0.0[v] {
                    assert(prev.1.contains(v as usize));
                    let k = choose|k: int| 0 <= k < prev.1.len() && prev.1[k] == v as usize;
                    assert(res.1[k] == v as usize);
                }
            }
        }
        assert(distinct(res.1)) by {
            assert forall|a: int, b: int| 0 <= a < b < res.1.len() implies res.1[a] != res.1[b] by {
                if a < prev.1.len() && b >= prev.1.len() {
                    let xa = res.1[a];
                    let xb = res.1[b];
                    assert(prev.1[a] == xa);
                    assert(prev.1.contains(xa));
                    assert(one.1[b - prev.1.len()] == xb);
                    assert(one.1.contains(xb));
                    assert(prev.0.0[xa as int] < m0.1[xa as int]);
                    if xa == xb {
                        assert(prev.0.0[xa as int] < prev.0.1[xa as int]);
                        cc_no_emit_below_snapshot(
                            n,
                            oa,
                            prev.0,
                            fr[i - 1],
                            xa,
                            oa[fr[i - 1] as int].len() as int,
                        );
                    }
                } else if a >= prev.1.len() {
                    assert(res.1[a] == one.1[a - prev.1.len()]);
                    assert(res.1[b] == one.1[b - prev.1.len()]);
                }
            }
        }
        assert forall|x: int, jj: int|
            0 <= x < i && 0 <= jj < oa[fr[x] as int].len() implies res.0.0[#[trigger] oa[fr[x] as int][jj] as int]
            <= m0.0[fr[x] as int] by {
            if x < i - 1 {
                assert(prev.0.0[oa[fr[x] as int][jj] as int] <= m0.0[fr[x] as int]);
                assert(res.0.0[oa[fr[x] as int][jj] as int] <= prev.0.0[oa[fr[x] as int][jj] as int]);
            } else {
                assert(res.0.0[oa[s as int][jj] as int] <= prev.0.0[s as int]);
                assert(prev.0.0[s as int] <= m0.0[s as int]);
            }
        }
    }
}

/// A node whose label already sits below its snapshot cannot be emitted by a
/// scan: emission requires label and snapshot to match, and labels only
/// shrink.
#[verifier::rlimit(100)]
proof fn cc_no_emit_below_snapshot(
    n: nat,
    oa: Seq<Seq<usize>>,
    m: (Seq<usize>, Seq<usize>),
    s: usize,
    x: usize,
    j: int,
)
    requires
        adj_ok(n, oa),
        cc_inv(n, oa, m),
        (s as int) < n,
        (x as int) < n,
        m.0[x as int] < m.1[x as int],
        0 <= j <= oa[s as int].len(),
    ensures
        ({
            let res = push_src_upto::<CC>(m, s, oa[s as int], j);
            &&& res.0.1 == m.1
            &&& forall|v: int| 0 <= v < n ==> #[trigger] res.0.0[v] <= m.0[v]
            &&& cc_inv(n, oa, res.0)
            &&& !res.1.contains(x)
        }),
    decreases j,
{
    let ts = oa[s as int];
    if j > 0 {
        cc_no_emit_below_snapshot(n, oa, m, s, x, j - 1);
        let prev = push_src_upto::<CC>(m, s, ts, j - 1);
        let t = ts[j - 1];
        assert(ts.contains(t));
        assert((t as int) < n);
        let res = push_src_upto::<CC>(m, s, ts, j);
        if prev.0.0[s as int] < prev.0.0[t as int] {
            lemma_cc_claim(n, oa, prev.0, s, t);
            assert(res.0.0 == prev.0.0.update(t as int, prev.0.0[s as int]));
            if prev.0.0[t as int] == prev.0.1[t as int] {
                assert(res.1 == prev.1.push(t));
                assert(t != x) by {
                    assert(prev.0.0[x as int] <= m.0[x as int]);
                    assert(prev.0.1[x as int] == m.1[x as int]);
                }
                if res.1.contains(x) {
                    let k = choose|k: int| 0 <= k < res.1.len() && res.1[k] == x;
                    assert(k < prev.1.len());
                    assert(prev.1[k] == x);
                    assert(prev.1.contains(x));
                }
            } else {
                assert(res.1 == prev.1);
            }
        } else {
            assert(res == prev);
        }
    }
}

/// What one pull scan does to the CC state, relative to the synced state
/// `base` the round started from: only the target's label can change, labels
/// never grow, an accepted relaxation strictly lowers the total, a target
/// whose label was still at its round-start value is flagged if the scan
/// changes it, and the target ends no larger than any scanned frontier
/// in-neighbor's label at scan start.
#[verifier::rlimit(100)]
proof fn lemma_cc_pull_tgt(
    n: nat,
    oa: Seq<Seq<usize>>,
    ia: Seq<Seq<usize>>,
    base: (Seq<usize>, Seq<usize>),
    m0: (Seq<usize>, Seq<usize>),
    t: usize,
    fd: Seq<bool>,
    k: int,
)
    requires
        adj_ok(n, oa),
        adj_ok(n, ia),
        inverts(n, oa, ia),
        cc_inv(n, oa, m0),
        base.0.len() == n,
        forall|v: int| 0 <= v < n ==> #[trigger] base.1[v] == base.0[v],
        m0.1 == base.1,
        forall|v: int| 0 <= v < n ==> #[trigger] m0.0[v] <= base.0[v],
        (t as int) < n,
        fd.len() == n,
        0 <= k <= ia[t as int].len(),
    ensures
        ({
            let res = pull_tgt_upto::<CC>(m0, t, ia[t as int], fd, k);
            &&& cc_inv(n, oa, res.0)
            &&& res.0.1 == m0.1
            &&& !res.2
            &&& forall|v: int| 0 <= v < n && v != t ==> res.0.0[v] == m0.0[v]
            &&& res.0.0[t as int] <= m0.0[t as int]
            &&& sum_ids(res.0.0) <= sum_ids(m0.0)
            &&& (res.1 ==> sum_ids(res.0.0) < sum_ids(m0.0))
            &&& (res.0.0[t as int] != m0.0[t as int] && m0.0[t as int] == base.0[t as int]
                ==> res.1)
            &&& forall|kk: int|
                0 <= kk < k && fd[ia[t as int][kk] as int] ==> res.0.0[t as int] <= m0.0[(
                #[trigger] ia[t as int][kk]) as int]
        }),
    decreases k,
{
    let srcs = ia[t as int];
    if k > 0 {
        lemma_cc_pull_tgt(n, oa, ia, base, m0, t, fd, k - 1);
        let prev = pull_tgt_upto::<CC>(m0, t, srcs, fd, k - 1);
        let res = pull_tgt_upto::<CC>(m0, t, srcs, fd, k);
        let s = srcs[k - 1];
        assert((s as int) < n);
        if (s as int) < fd.len() && fd[s as int] {
            if prev.0.0[s as int] < prev.0.0[t as int] {
                assert(ia[t as int][k - 1] == s);
                assert(oa[ia[t as int][k - 1] as int].contains(t as usize));
                lemma_cc_claim(n, oa, prev.0, s, t);
                assert(res.0.0 == prev.0.0.update(t as int, prev.0.0[s as int]));
                assert(s != t) by {
                    assert(prev.0.0[s as int] < prev.0.0[t as int]);
                }
                assert(prev.0.0[s as int] == m0.0[s as int]);
                if prev.0.0[t as int] == prev.0.1[t as int] {
                    assert(res.1);
                } else {
                    // Not emitted: the label had already left its round-start
                    // value.
                    if m0.0[t as int] == base.0[t as int] && !res.1 {
                        if prev.0.0[t as int] == m0.0[t as int] {
                            assert(prev.0.1[t as int] == base.1[t as int]);
                            assert(base.1[t as int] == base.0[t as int]);
                            assert(false);
                        }
                        assert(prev.1);
                    }
                }
                assert forall|kk: int|
                    0 <= kk < k && fd[ia[t as int][kk] as int] implies res.0.0[t as int] <= m0.0[(
                    #[trigger] ia[t as int][kk]) as int] by {
                    if kk == k - 1 {
                        assert(res.0.0[t as int] == m0.0[s as int]);
                    } else {
                        assert(prev.0.0[t as int] <= m0.0[ia[t as int][kk] as int]);
                    }
                }
            } else {
                assert(res.0 == prev.0);
                assert forall|kk: int|
                    0 <= kk < k && fd[ia[t as int][kk] as int] implies res.0.0[t as int] <= m0.0[(
                    #[trigger] ia[t as int][kk]) as int] by {
                    if kk == k - 1 {
                        assert(res.0.0[t as int] <= res.0.0[s as int]);
                        if s != t {
                            assert(res.0.0[s as int] == m0.0[s as int]);
                        } else {
                            assert(res.0.0[t as int] <= m0.0[t as int]);
                        }
                    }
                }
            }
        }
    }
}

/// What the whole pull fold does to the CC state: labels never grow, the
/// snapshots are untouched, every label change is matched by a set flag, the
/// total strictly shrinks whenever some flag is set, and every target ends
/// stable against its scanned frontier in-neighbors' round-start labels.
#[verifier::rlimit(100)]
#[verifier::spinoff_prover]
proof fn lemma_cc_pull_all(
    n: nat,
    oa: Seq<Seq<usize>>,
    ia: Seq<Seq<usize>>,
    m0: (Seq<usize>, Seq<usize>),
    fd: Seq<bool>,
    t: int,
)
    requires
        adj_ok(n, oa),
        adj_ok(n, ia),
        inverts(n, oa, ia),
        cc_inv(n, oa, m0),
        forall|v: int| 0 <= v < n ==> #[trigger] m0.1[v] == m0.0[v],
        fd.len() == n,
        0 <= t <= n,
    ensures
        ({
            let res = pull_upto::<CC>(m0, ia, fd, t);
            &&& cc_inv(n, oa, res.0)
            &&& res.0.1 == m0.1
            &&& res.1.len() == t
            &&& forall|v: int| 0 <= v < n ==> #[trigger] res.0.0[v] <= m0.0[v]
            &&& forall|v: int| t <= v < n ==> #[trigger] res.0.0[v] == m0.0[v]
            &&& sum_ids(res.0.0) <= sum_ids(m0.0)
            &&& (count_true(res.1) > 0 ==> sum_ids(res.0.0) < sum_ids(m0.0))
            &&& forall|v: int| 0 <= v < t ==> #[trigger] res.0.0[v] == m0.0[v] || res.1[v]
            &&& forall|v: int, kk: int|
                0 <= v < t && 0 <= kk < ia[v].len() && fd[ia[v][kk] as int] ==> res.0.0[v] <= m0.0[(
                #[trigger] ia[v][kk]) as int]
        }),
    decreases t,
{
    if t > 0 {
        lemma_cc_pull_all(n, oa, ia, m0, fd, t - 1);
        let prev = pull_upto::<CC>(m0, ia, fd, t - 1);
        let res = pull_upto::<CC>(m0, ia, fd, t);
        assert(prev.0.0[t - 1] == m0.0[t - 1]);
        lemma_cc_pull_tgt(n, oa, ia, m0, prev.0, (t - 1) as usize, fd, ia[t - 1].len() as int);
        let one = pull_tgt::<CC>(prev.0, (t - 1) as usize, ia[t - 1], fd);
        assert(res.0 == one.0 && res.1 == prev.1.push(one.1));
        assert(count_true(res.1) == count_true(prev.1) + if one.1 {
            1nat
        } else {
            0nat
        }) by {
            assert(res.1.drop_last() =~= prev.1);
            assert(res.1.last() == one.1);
        }
        assert forall|v: int| 0 <= v < n implies #[trigger] res.0.0[v] <= m0.0[v] by {
            if v == t - 1 {
                assert(res.0.0[v] <= prev.0.0[v]);
            } else {
                assert(res.0.0[v] == prev.0.0[v]);
            }
        }
        assert forall|v: int| 0 <= v < t implies #[trigger] res.0.0[v] == m0.0[v] || res.1[v] by {
            if v < t - 1 {
                assert(res.0.0[v] == prev.0.0[v]);
                assert(res.1[v] == prev.1[v]);
            } else {
                assert(res.1[v] == one.1);
            }
        }
        assert forall|v: int, kk: int|
            0 <= v < t && 0 <= kk < ia[v].len() && fd[ia[v][kk] as int] implies res.0.0[v] <= m0.0[(
            #[trigger] ia[v][kk]) as int] by {
            if v < t - 1 {
                assert(prev.0.0[v] <= m0.0[ia[v][kk] as int]);
                assert(res.0.0[v] == prev.0.0[v]);
            } else {
                assert(res.0.0[v] <= prev.0.0[ia[v][kk] as int]);
                assert(prev.0.0[ia[v][kk] as int] <= m0.0[ia[v][kk] as int]);
            }
        }
        assert(cc_inv(n, oa, res.0));
        assert(res.0.1 == m0.1);
        assert(res.1.len() == t);
        assert forall|v: int| t <= v < n implies #[trigger] res.0.0[v] == m0.0[v] by {
            assert(res.0.0[v] == prev.0.0[v]);
        }
        assert(sum_ids(res.0.0) <= sum_ids(m0.0));
        if count_true(res.1) > 0 {
            assert(sum_ids(res.0.0) < sum_ids(m0.0)) by {
                if one.1 {
                    assert(sum_ids(one.0.0) < sum_ids(prev.0.0));
                } else {
                    assert(count_true(prev.1) > 0);
                }
            }
        }
    }
}

/// The snapshot pass over a sparse frontier keeps every member in order,
/// leaves the labels alone, and copies each member's label into its snapshot.
#[verifier::rlimit(100)]
proof fn lemma_cc_nm_sparse(
    n: nat,
    oa: Seq<Seq<usize>>,
    m0: (Seq<usize>, Seq<usize>),
    fr: Seq<usize>,
    i: int,
)
    requires
        adj_ok(n, oa),
        cc_inv(n, oa, m0),
        forall|x: int| 0 <= x < fr.len() ==> (#[trigger] fr[x] as int) < n,
        0 <= i <= fr.len(),
    ensures
        ({
            let res = nm_sparse_upto::<CC>(m0, fr, i);
            &&& cc_inv(n, oa, res.0)
            &&& res.0.0 == m0.0
            &&& res.1 =~= fr.take(i)
            &&& forall|v: int|
                0 <= v < n ==> #[trigger] res.0.1[v] == if fr.take(i).contains(v as usize) {
                    m0.0[v]
                } else {
                    m0.1[v]
                }
        }),
    decreases i,
{
    if i > 0 {
        lemma_cc_nm_sparse(n, oa, m0, fr, i - 1);
        let prev = nm_sparse_upto::<CC>(m0, fr, i - 1);
        let res = nm_sparse_upto::<CC>(m0, fr, i);
        let w = fr[i - 1];
        assert(res.1 =~= prev.1.push(w));
        assert(prev.1.push(w) =~= fr.take(i)) by {
            assert(fr.take(i).drop_last() =~= fr.take(i - 1));
        }
        assert(res.0.1 == prev.0.1.update(w as int, m0.0[w as int]));
        assert forall|v: int|
            0 <= v < n implies #[trigger] res.0.1[v] == if fr.take(i).contains(v as usize) {
            m0.0[v]
        } else {
            m0.1[v]
        } by {
            assert(fr.take(i).drop_last() =~= fr.take(i - 1));
            if v == w as int {
                assert(fr.take(i)[i - 1] == w);
                assert(fr.take(i).contains(w));
            } else {
                assert(res.0.1[v] == prev.0.1[v]);
                if fr.take(i).contains(v as usize) {
                    let k = choose|k: int| 0 <= k < i && #[trigger] fr.take(i)[k] == v as usize;
                    assert(k < i - 1);
                    assert(fr.take(i - 1)[k] == v as usize);
                } else if fr.take(i - 1).contains(v as usize) {
                    let k = choose|k: int| 0 <= k < i - 1 && #[trigger] fr.take(i - 1)[k] == v as usize;
                    assert(fr.take(i)[k] == v as usize);
                }
            }
        }
    }
}

/// The snapshot pass over a dense frontier keeps exactly the old bits,
/// leaves the labels alone, and copies each member's label into its snapshot.
#[verifier::rlimit(100)]
proof fn lemma_cc_nm_dense(
    n: nat,
    oa: Seq<Seq<usize>>,
    m0: (Seq<usize>, Seq<usize>),
    fd: Seq<bool>,
    v: int,
)
    requires
        adj_ok(n, oa),
        cc_inv(n, oa, m0),
        fd.len() <= n,
        0 <= v <= fd.len(),
    ensures
        ({
            let res = nm_dense_upto::<CC>(m0, fd, v);
            &&& cc_inv(n, oa, res.0)
            &&& res.0.0 == m0.0
            &&& res.1 =~= fd.take(v)
            &&& forall|w: int|
                0 <= w < n ==> #[trigger] res.0.1[w] == if 0 <= w < v && fd[w] {
                    m0.0[w]
                } else {
                    m0.1[w]
                }
        }),
    decreases v,
{
    if v > 0 {
        lemma_cc_nm_dense(n, oa, m0, fd, v - 1);
        let prev = nm_dense_upto::<CC>(m0, fd, v - 1);
        let res = nm_dense_upto::<CC>(m0, fd, v);
        assert(res.1 =~= fd.take(v)) by {
            assert(fd.take(v).drop_last() =~= fd.take(v - 1));
        }
    }
}

/// Connected components by label propagation. Every node ends with the least
/// label among the nodes that reach it: the label is at most the node's own
/// id and names a node with a directed path to it, every edge is stable (the
/// target's label is no larger than the source's), and labels are monotone
/// along every directed path.
#[verifier::loop_isolation(false)]
#[verifier::rlimit(100)]
pub fn cc(graph: &AdjacencyGraph) -> (ids: Vec<usize>)
    requires
        graph.wf(),
    ensures
        ids@.len() == graph.spec_node_count(),
        forall|v: int| 0 <= v < ids@.len() ==> (#[trigger] ids@[v] as int) <= v,
        forall|v: int|
            0 <= v < ids@.len() ==> reachable(
                graph.spec_node_count(),
                graph.out_adj(),
                #[trigger] ids@[v],
                v as usize,
            ),
        forall|v: int, j: int|
            0 <= v < ids@.len() && 0 <= j < graph.out_adj()[v].len() ==> ids@[#[trigger] graph.out_adj()[v][j] as int]
                <= ids@[v],
        forall|u: usize, v: usize|
            (u as int) < ids@.len() && (v as int) < ids@.len() && reachable(
                graph.spec_node_count(),
                graph.out_adj(),
                u,
                v,
            ) ==> ids@[v as int] <= ids@[u as int],
{
    let ghost n = graph.spec_node_count();
    let ghost oa = graph.out_adj();
    let ghost ia = graph.inc_adj();
    proof {
        graph_shape(*graph);
    }
    let node_count = graph.node_count();
    let mut cc = CC::new(node_count);
    proof {
        assert forall|v: int| 0 <= v < n implies reachable(n, oa, #[trigger] cc@.0[v], v as usize) by {
            lemma_reachable_refl(n, oa, v as usize);
        }
    }
    let mut frontier = NodeSubset::full(node_count);
    while frontier.subset_count() != 0
        invariant
            frontier_ok(frontier, n),
            frontier.node_count == node_count,
            cc_inv(n, oa, cc@),
            cc_synced_except(n, cc@, frontier.members()),
            cc_closed_except(n, oa, cc@.0, frontier.members()),
        decreases sum_ids(cc@.0), frontier.subset_count,
    {
        let ghost m0 = cc@;
        let ghost fr0 = frontier;
        let next = crate::ligra::node_filter(&frontier, &mut cc);
        frontier = next;
        proof {
            cc_filter_round(n, oa, fr0, m0, frontier, cc@);
            assert(sum_ids(cc@.0) == sum_ids(m0.0));
        }
        let ghost m1 = cc@;
        let ghost fr1 = frontier;
        relationship_map(graph, &mut frontier, &mut cc);
        proof {
            cc_reestablish(*graph, fr1, m1, frontier, cc@);
        }
    }
    proof {
        crate::node_set::lemma_empty_members(frontier);
        assert(frontier.members() =~= Set::<usize>::empty());
        assert forall|v: int, j: int|
            0 <= v < n && 0 <= j < oa[v].len() implies cc@.0[#[trigger] oa[v][j] as int]
            <= cc@.0[v] by {
            assert(!frontier.members().contains(v as usize));
        }
        assert forall|u: usize, v: usize|
            (u as int) < n && (v as int) < n && reachable(n, oa, u, v) implies cc@.0[v as int]
            <= cc@.0[u as int] by {
            reveal(reachable);
            let p = choose|p: Seq<usize>| is_path(n, oa, p) && p.first() == u && p.last() == v;
            lemma_cc_stable_path(n, oa, cc@.0, p);
        }
    }
    cc.ids
}

/// Any two label assignments that meet `cc`'s contract coincide: each pins
/// every node's label to the least id among the nodes that reach it. In
/// particular, runs with the work threshold forced to either direction return
/// the same array.
#[verifier::rlimit(100)]
pub proof fn lemma_cc_labels_unique(n: nat, oa: Seq<Seq<usize>>, a: Seq<usize>, b: Seq<usize>)
    requires
        n <= usize::MAX,
        a.len() == n,
        b.len() == n,
        forall|v: int| 0 <= v < n ==> (#[trigger] a[v] as int) <= v,
        forall|v: int| 0 <= v < n ==> reachable(n, oa, #[trigger] a[v], v as usize),
        forall|u: usize, v: usize|
            #![trigger a[u as int], a[v as int]]
            (u as int) < n && (v as int) < n && reachable(n, oa, u, v) ==> a[v as int] <= a[u as int],
        forall|v: int| 0 <= v < n ==> (#[trigger] b[v] as int) <= v,
        forall|v: int| 0 <= v < n ==> reachable(n, oa, #[trigger] b[v], v as usize),
        forall|u: usize, v: usize|
            #![trigger b[u as int], b[v as int]]
            (u as int) < n && (v as int) < n && reachable(n, oa, u, v) ==> b[v as int] <= b[u as int],
    ensures
        a =~= b,
{
    assert forall|v: int| 0 <= v < n implies a[v] == b[v] by {
        let la = a[v];
        let lb = b[v];
        assert(reachable(n, oa, la, v as usize));
        assert(reachable(n, oa, lb, v as usize));
        assert(b[(v as usize) as int] <= b[la as int]);
        assert((b[la as int] as int) <= la as int);
        assert(a[(v as usize) as int] <= a[lb as int]);
        assert((a[lb as int] as int) <= lb as int);
    }
}

/// Labels are monotone along a path once every edge is stable.
proof fn lemma_cc_stable_path(n: nat, oa: Seq<Seq<usize>>, ids: Seq<usize>, p: Seq<usize>)
    requires
        ids.len() == n,
        forall|s: int, j: int|
            0 <= s < n && 0 <= j < oa[s].len() ==> ids[#[trigger] oa[s][j] as int] <= ids[s],
        is_path(n, oa, p),
    ensures
        ids[p.last() as int] <= ids[p.first() as int],
    decreases p.len(),
{
    if p.len() > 1 {
        let q = p.drop_last();
        assert(is_path(n, oa, q)) by {
            assert forall|i: int| 0 <= i < q.len() - 1 implies #[trigger] oa[q[i] as int].contains(
                q[i + 1],
            ) by {
                assert(q[i] == p[i] && q[i + 1] == p[i + 1]);
            }
        }
        lemma_cc_stable_path(n, oa, ids, q);
        let i = p.len() - 2;
        let u = p[i];
        let w = p.last();
        assert(oa[p[i] as int].contains(p[i + 1]));
        assert(oa[u as int].contains(w));
        let j = choose|j: int| 0 <= j < oa[u as int].len() && oa[u as int][j] == w;
        assert(ids[oa[u as int][j] as int] <= ids[u as int]);
    }
}

/// The snapshot round keeps the frontier's membership, count and shape,
/// leaves the labels alone, and brings every snapshot in line with its label.
#[verifier::rlimit(100)]
proof fn cc_filter_round(
    n: nat,
    oa: Seq<Seq<usize>>,
    fr0: NodeSubset,
    m0: (Seq<usize>, Seq<usize>),
    fr1: NodeSubset,
    m1: (Seq<usize>, Seq<usize>),
)
    requires
        adj_ok(n, oa),
        frontier_ok(fr0, n),
        cc_inv(n, oa, m0),
        cc_synced_except(n, m0, fr0.members()),
        fr1.wf(),
        fr1.node_count == fr0.node_count,
        ({
            if fr0.is_dense {
                let res = nm_dense_upto::<CC>(m0, fr0.dense_seq(), fr0.dense_seq().len() as int);
                &&& m1 == res.0
                &&& fr1.is_dense
                &&& fr1.dense is Some
                &&& fr1.dense_seq() == res.1
                &&& fr1.subset_count == count_true(res.1)
            } else if fr0.sparse is Some {
                let res = nm_sparse_upto::<CC>(m0, fr0.sparse_seq(), fr0.sparse_seq().len() as int);
                &&& m1 == res.0
                &&& !fr1.is_dense
                &&& fr1.sparse is Some
                &&& fr1.sparse_seq() == res.1
                &&& fr1.subset_count == res.1.len()
            } else {
                m1 == m0 && !fr1.is_dense && fr1.subset_count == 0 && fr1.sparse is None
                    && fr1.dense is None
            }
        }),
    ensures
        frontier_ok(fr1, n),
        cc_inv(n, oa, m1),
        m1.0 == m0.0,
        fr1.subset_count == fr0.subset_count,
        fr1.members() =~= fr0.members(),
        forall|v: int| 0 <= v < n ==> #[trigger] m1.1[v] == m1.0[v],
{
    if fr0.is_dense {
        let fd = fr0.dense_seq();
        lemma_cc_nm_dense(n, oa, m0, fd, fd.len() as int);
        assert(fd.take(fd.len() as int) =~= fd);
        assert forall|v: int| 0 <= v < n implies #[trigger] m1.1[v] == m1.0[v] by {
            if !(0 <= v < fd.len() && fd[v]) {
                assert(!fr0.members().contains(v as usize));
            }
        }
        assert(fr1.members() =~= fr0.members());
    } else if fr0.sparse is Some {
        let fs = fr0.sparse_seq();
        lemma_cc_nm_sparse(n, oa, m0, fs, fs.len() as int);
        assert(fs.take(fs.len() as int) =~= fs);
        assert forall|v: int| 0 <= v < n implies #[trigger] m1.1[v] == m1.0[v] by {
            if !fs.contains(v as usize) {
                assert(!fr0.members().contains(v as usize));
            }
        }
        assert(fr1.members() =~= fr0.members());
    } else {
        assert(fr0.members() =~= Set::<usize>::empty()) by {
            crate::node_set::lemma_empty_members(fr0);
        }
        assert(fr1.members() =~= Set::<usize>::empty());
        assert forall|v: int| 0 <= v < n implies #[trigger] m1.1[v] == m1.0[v] by {
            assert(!fr0.members().contains(v as usize));
        }
    }
}

/// One propagation round of CC: from the primitives' exact contract,
/// re-establish the loop invariants — in particular, outside the new
/// frontier snapshots still match and edges are stable — and show the label
/// total strictly falls whenever the round leaves a non-empty frontier.
#[verifier::rlimit(100)]
proof fn cc_reestablish(
    g: AdjacencyGraph,
    fr0: NodeSubset,
    m0: (Seq<usize>, Seq<usize>),
    fr1: NodeSubset,
    m1: (Seq<usize>, Seq<usize>),
)
    requires
        g.wf(),
        frontier_ok(fr0, g.spec_node_count()),
        cc_inv(g.spec_node_count(), g.out_adj(), m0),
        forall|v: int| 0 <= v < g.spec_node_count() ==> #[trigger] m0.1[v] == m0.0[v],
        cc_closed_except(g.spec_node_count(), g.out_adj(), m0.0, fr0.members()),
        rm_post::<CC>(g, fr0, m0, fr1, m1),
        fr1.wf(),
        fr1.node_count == fr0.node_count,
    ensures
        frontier_ok(fr1, g.spec_node_count()),
        cc_inv(g.spec_node_count(), g.out_adj(), m1),
        cc_synced_except(g.spec_node_count(), m1, fr1.members()),
        cc_closed_except(g.spec_node_count(), g.out_adj(), m1.0, fr1.members()),
        sum_ids(m1.0) <= sum_ids(m0.0),
        fr1.subset_count != 0 ==> sum_ids(m1.0) < sum_ids(m0.0),
{
    let n = g.spec_node_count();
    let oa = g.out_adj();
    let ia = g.inc_adj();
    graph_shape(g);
    if fr0.subset_count == 0 {
        assert(fr1 == fr0 && m1 == m0);
        assert(fr0.members() =~= Set::<usize>::empty()) by {
            crate::node_set::lemma_empty_members(fr0);
        }
    } else if rm_work(g, fr0) > g.threshold {
        // Pull path.
        assert(fr0.is_dense || fr0.sparse is Some);
        let fd = dense_form(fr0, n);
        let res = pull_upto::<CC>(m0, ia, fd, n as int);
        assert(fd.len() == n);
        lemma_cc_pull_all(n, oa, ia, m0, fd, n as int);
        assert(m1 == res.0 && fr1.dense_seq() == res.1);
        assert(fr1.members() =~= Set::new(
            |v: usize| (v as int) < res.1.len() && res.1[v as int],
        ));
        assert(cc_synced_except(n, m1, fr1.members())) by {
            assert forall|v: int|
                0 <= v < n && !fr1.members().contains(v as usize) implies #[trigger] m1.1[v]
                == m1.0[v] by {
                assert(!res.1[v]);
                assert(m1.0[v] == m0.0[v]);
            }
        }
        assert(cc_closed_except(n, oa, m1.0, fr1.members())) by {
            assert forall|s: int, j: int|
                0 <= s < n && !fr1.members().contains(s as usize) && 0 <= j < oa[s].len() implies
                m1.0[#[trigger] oa[s][j] as int] <= m1.0[s] by {
                let t = oa[s][j];
                assert((t as int) < n);
                assert(!res.1[s]);
                assert(m1.0[s] == m0.0[s]);
                members_dense_agree(fr0, n, s as usize);
                if fd[s] {
                    // A scanned source: the edge was relaxed during the
                    // target's own scan.
                    assert(ia[(#[trigger] oa[s][j]) as int].contains(s as usize));
                    let kk = choose|kk: int|
                        0 <= kk < ia[t as int].len() && #[trigger] ia[t as int][kk] == s as usize;
                    assert(fd[ia[t as int][kk] as int]);
                    assert(m1.0[t as int] <= m0.0[s]);
                } else {
                    assert(!fr0.members().contains(s as usize));
                    assert(m0.0[t as int] <= m0.0[s]);
                    assert(m1.0[t as int] <= m0.0[t as int]);
                }
            }
        }
        if fr1.subset_count != 0 {
            assert(count_true(res.1) == fr1.subset_count);
        }
    } else {
        // Push path.
        let fs = sparse_form(fr0);
        let res = push_upto::<CC>(m0, oa, fs, fs.len() as int);
        sparse_form_members(fr0, n);
        assert forall|x: int| 0 <= x < fs.len() implies (#[trigger] fs[x] as int) < n by {
            sparse_form_range(fr0, n, x);
        }
        lemma_cc_push_all(n, oa, m0, fs, fs.len() as int);
        assert(m1 == res.0 && fr1.sparse_seq() == res.1);
        assert(fr1.members() =~= res.1.to_set());
        assert(frontier_ok(fr1, n)) by {
            assert(distinct(res.1));
            assert forall|i: int| 0 <= i < res.1.len() implies (#[trigger] res.1[i] as int) < n by {
                assert(res.1.contains(res.1[i]));
            }
        }
        assert(cc_synced_except(n, m1, fr1.members())) by {
            assert forall|v: int|
                0 <= v < n && !fr1.members().contains(v as usize) implies #[trigger] m1.1[v]
                == m1.0[v] by {
                assert(!res.1.contains(v as usize));
                assert(m1.0[v] == m0.0[v]);
            }
        }
        assert(cc_closed_except(n, oa, m1.0, fr1.members())) by {
            assert forall|s: int, j: int|
                0 <= s < n && !fr1.members().contains(s as usize) && 0 <= j < oa[s].len() implies
                m1.0[#[trigger] oa[s][j] as int] <= m1.0[s] by {
                let t = oa[s][j];
                assert(!res.1.contains(s as usize));
                assert(m1.0[s] == m0.0[s]);
                if fr0.members().contains(s as usize) {
                    assert(fs.to_set().contains(s as usize));
                    let x = choose|x: int| 0 <= x < fs.len() && fs[x] == s as usize;
                    assert(m1.0[oa[fs[x] as int][j] as int] <= m0.0[fs[x] as int]);
                } else {
                    assert(m0.0[t as int] <= m0.0[s]);
                    assert(m1.0[t as int] <= m0.0[t as int]);
                }
            }
        }
        if fr1.subset_count != 0 {
            assert(res.1.len() > 0);
        }
    }
}

} // verus!

verus! {

// ---------------------------------------------------------------------------
// Representation equivalence of the two relationship-map directions.
// ---------------------------------------------------------------------------

/// A mapper whose relaxation never changes its state and whose answers
/// therefore depend on the edge alone.
pub open spec fn stateless<M: RelationshipMapper>(m: M::V) -> bool {
    forall|s: int, t: int| (#[trigger] M::spec_update(m, s, t)).0 == m
}

/// A stateless push scan leaves the state alone and emits exactly the edge
/// targets that pass `check` and whose relaxation answers true.
#[verifier::rlimit(100)]
proof fn lemma_stateless_push_src<M: RelationshipMapper>(m: M::V, s: usize, ts: Seq<usize>, j: int)
    requires
        stateless::<M>(m),
        0 <= j <= ts.len(),
    ensures
        ({
            let res = push_src_upto::<M>(m, s, ts, j);
            &&& res.0 == m
            &&& forall|t: usize| #[trigger]
                res.1.contains(t) <==> exists|jj: int|
                    0 <= jj < j && (#[trigger] ts[jj]) == t && M::spec_check(m, t as int)
                        && M::spec_update(m, s as int, t as int).1
        }),
    decreases j,
{
    if j > 0 {
        lemma_stateless_push_src::<M>(m, s, ts, j - 1);
        let prev = push_src_upto::<M>(m, s, ts, j - 1);
        let t0 = ts[j - 1];
        let res = push_src_upto::<M>(m, s, ts, j);
        assert forall|t: usize| #[trigger] res.1.contains(t) implies exists|jj: int|
            0 <= jj < j && (#[trigger] ts[jj]) == t && M::spec_check(m, t as int)
                && M::spec_update(m, s as int, t as int).1 by {
            let k = choose|k: int| 0 <= k < res.1.len() && res.1[k] == t;
            if k < prev.1.len() {
                assert(prev.1[k] == t);
                assert(prev.1.contains(t));
            } else {
                assert(t == t0);
                assert(ts[j - 1] == t && M::spec_check(m, t as int) && M::spec_update(
                    m,
                    s as int,
                    t as int,
                ).1);
            }
        }
        assert forall|t: usize|
            (exists|jj: int|
                0 <= jj < j && (#[trigger] ts[jj]) == t && M::spec_check(m, t as int)
                    && M::spec_update(m, s as int, t as int).1) implies #[trigger] res.1.contains(
            t,
        ) by {
            let jj = choose|jj: int|
                0 <= jj < j && (#[trigger] ts[jj]) == t && M::spec_check(m, t as int)
                    && M::spec_update(m, s as int, t as int).1;
            if jj < j - 1 {
                assert(prev.1.contains(t));
                let k = choose|k: int| 0 <= k < prev.1.len() && prev.1[k] == t;
                assert(res.1[k] == t);
            } else {
                assert(res.1 == prev.1.push(t));
                assert(res.1[prev.1.len() as int] == t);
            }
        }
    }
}

/// A stateless push over a frontier emits exactly the accepted targets.
#[verifier::rlimit(100)]
proof fn lemma_stateless_push_all<M: RelationshipMapper>(
    m: M::V,
    oa: Seq<Seq<usize>>,
    fr: Seq<usize>,
    i: int,
)
    requires
        stateless::<M>(m),
        0 <= i <= fr.len(),
    ensures
        ({
            let res = push_upto::<M>(m, oa, fr, i);
            &&& res.0 == m
            &&& forall|t: usize| #[trigger]
                res.1.contains(t) <==> exists|x: int, j: int|
                    0 <= x < i && 0 <= j < oa[fr[x] as int].len() && (#[trigger] oa[fr[x] as int][j])
                        == t && M::spec_check(m, t as int) && M::spec_update(
                        m,
                        fr[x] as int,
                        t as int,
                    ).1
        }),
    decreases i,
{
    if i > 0 {
        lemma_stateless_push_all::<M>(m, oa, fr, i - 1);
        let prev = push_upto::<M>(m, oa, fr, i - 1);
        let s = fr[i - 1];
        lemma_stateless_push_src::<M>(m, s, oa[s as int], oa[s as int].len() as int);
        let one = push_src::<M>(m, s, oa[s as int]);
        let res = push_upto::<M>(m, oa, fr, i);
        assert(res.0 == m && res.1 == prev.1 + one.1);
        assert forall|t: usize| #[trigger] res.1.contains(t) implies exists|x: int, j: int|
            0 <= x < i && 0 <= j < oa[fr[x] as int].len() && (#[trigger] oa[fr[x] as int][j]) == t
                && M::spec_check(m, t as int) && M::spec_update(m, fr[x] as int, t as int).1 by {
            let k = choose|k: int| 0 <= k < res.1.len() && res.1[k] == t;
            if k < prev.1.len() {
                assert(prev.1[k] == t);
                assert(prev.1.contains(t));
            } else {
                assert(one.1[k - prev.1.len()] == t);
                assert(one.1.contains(t));
                let jj = choose|jj: int|
                    0 <= jj < oa[s as int].len() && (#[trigger] oa[s as int][jj]) == t
                        && M::spec_check(m, t as int) && M::spec_update(m, s as int, t as int).1;
                assert(0 <= i - 1 < i && 0 <= jj < oa[fr[i - 1] as int].len() && oa[fr[i
                    - 1] as int][jj] == t);
            }
        }
        assert forall|t: usize|
            (exists|x: int, j: int|
                0 <= x < i && 0 <= j < oa[fr[x] as int].len() && (#[trigger] oa[fr[x] as int][j])
                    == t && M::spec_check(m, t as int) && M::spec_update(
                    m,
                    fr[x] as int,
                    t as int,
                ).1) implies #[trigger] res.1.contains(t) by {
            let (x, j): (int, int) = choose|x: int, j: int|
                0 <= x < i && 0 <= j < oa[fr[x] as int].len() && (#[trigger] oa[fr[x] as int][j])
                    == t && M::spec_check(m, t as int) && M::spec_update(
                    m,
                    fr[x] as int,
                    t as int,
                ).1;
            if x < i - 1 {
                assert(prev.1.contains(t));
                let k = choose|k: int| 0 <= k < prev.1.len() && prev.1[k] == t;
                assert(res.1[k] == t);
            } else {
                assert(one.1.contains(t));
                let k = choose|k: int| 0 <= k < one.1.len() && one.1[k] == t;
                assert(res.1[prev.1.len() + k] == t);
            }
        }
    }
}

/// A stateless pull scan leaves the state alone and accepts exactly when
/// some frontier in-neighbor's relaxation answers true.
#[verifier::rlimit(100)]
proof fn lemma_stateless_pull_tgt<M: RelationshipMapper>(
    m: M::V,
    t: usize,
    srcs: Seq<usize>,
    fd: Seq<bool>,
    k: int,
)
    requires
        stateless::<M>(m),
        M::spec_check(m, t as int),
        0 <= k <= srcs.len(),
    ensures
        ({
            let res = pull_tgt_upto::<M>(m, t, srcs, fd, k);
            &&& res.0 == m
            &&& !res.2
            &&& (res.1 <==> exists|kk: int|
                0 <= kk < k && (srcs[kk] as int) < fd.len() && fd[srcs[kk] as int] && (
                #[trigger] M::spec_update(m, srcs[kk] as int, t as int)).1)
        }),
    decreases k,
{
    if k > 0 {
        lemma_stateless_pull_tgt::<M>(m, t, srcs, fd, k - 1);
    }
}

/// A stateless pull over all targets flags exactly the accepted ones.
#[verifier::rlimit(100)]
proof fn lemma_stateless_pull_all<M: RelationshipMapper>(
    m: M::V,
    ia: Seq<Seq<usize>>,
    fd: Seq<bool>,
    t: int,
)
    requires
        stateless::<M>(m),
        0 <= t <= usize::MAX,
    ensures
        ({
            let res = pull_upto::<M>(m, ia, fd, t);
            &&& res.0 == m
            &&& res.1.len() == t
            &&& forall|v: int|
                0 <= v < t ==> (#[trigger] res.1[v] <==> (M::spec_check(m, v) && exists|kk: int|
                    0 <= kk < ia[v].len() && (ia[v][kk] as int) < fd.len() && fd[ia[v][kk] as int]
                        && (#[trigger] M::spec_update(m, ia[v][kk] as int, v)).1))
        }),
    decreases t,
{
    if t > 0 {
        lemma_stateless_pull_all::<M>(m, ia, fd, t - 1);
        let prev = pull_upto::<M>(m, ia, fd, t - 1);
        let res = pull_upto::<M>(m, ia, fd, t);
        if M::spec_check(prev.0, t - 1) {
            lemma_stateless_pull_tgt::<M>(m, (t - 1) as usize, ia[t - 1], fd, ia[t - 1].len() as int);
        }
        assert forall|v: int|
            0 <= v < t implies (#[trigger] res.1[v] <==> (M::spec_check(m, v) && exists|kk: int|
                0 <= kk < ia[v].len() && (ia[v][kk] as int) < fd.len() && fd[ia[v][kk] as int] && (
                #[trigger] M::spec_update(m, ia[v][kk] as int, v)).1)) by {
            if v < t - 1 {
                assert(res.1[v] == prev.1[v]);
            }
        }
    }
}

/// Representation equivalence: over one graph and one frontier membership, a
/// mapper that does not mutate its carried state is offered, by the sparse
/// (push) fold over out-edges and by the dense (pull) fold over in-edges, the
/// very same set of output members.
#[verifier::rlimit(100)]
pub proof fn lemma_representation_equivalence<M: RelationshipMapper>(
    g: AdjacencyGraph,
    fr: NodeSubset,
    m: M::V,
)
    requires
        g.wf(),
        frontier_ok(fr, g.spec_node_count()),
        fr.is_dense || fr.sparse is Some,
        stateless::<M>(m),
    ensures
        ({
            let n = g.spec_node_count();
            let pushed = push_upto::<M>(
                m,
                g.out_adj(),
                sparse_form(fr),
                sparse_form(fr).len() as int,
            ).1;
            let flags = pull_upto::<M>(m, g.inc_adj(), dense_form(fr, n), n as int).1;
            forall|t: usize| (t as int) < n ==> (#[trigger] pushed.contains(t) <==> flags[t as int])
        }),
{
    let n = g.spec_node_count();
    let oa = g.out_adj();
    let ia = g.inc_adj();
    let fs = sparse_form(fr);
    let fd = dense_form(fr, n);
    graph_shape(g);
    sparse_form_members(fr, n);
    assert forall|x: int| 0 <= x < fs.len() implies (#[trigger] fs[x] as int) < n by {
        sparse_form_range(fr, n, x);
    }
    lemma_stateless_push_all::<M>(m, oa, fs, fs.len() as int);
    lemma_stateless_pull_all::<M>(m, ia, fd, n as int);
    let pushed = push_upto::<M>(m, oa, fs, fs.len() as int).1;
    let flags = pull_upto::<M>(m, ia, fd, n as int).1;
    assert forall|t: usize| (t as int) < n implies (#[trigger] pushed.contains(t) <==> flags[
        t as int
    ]) by {
        if pushed.contains(t) {
            let (x, j): (int, int) = choose|x: int, j: int|
                0 <= x < fs.len() && 0 <= j < oa[fs[x] as int].len() && (
                #[trigger] oa[fs[x] as int][j]) == t && M::spec_check(m, t as int)
                    && M::spec_update(m, fs[x] as int, t as int).1;
            let s = fs[x];
            assert(ia[oa[s as int][j] as int].contains((s as int) as usize));
            assert(ia[t as int].contains(s));
            let kk = choose|kk: int| 0 <= kk < ia[t as int].len() && ia[t as int][kk] == s;
            assert(fs.to_set().contains(s));
            assert(fr.members().contains(s));
            members_dense_agree(fr, n, s);
            assert(fd[ia[t as int][kk] as int]);
            assert(M::spec_update(m, ia[t as int][kk] as int, t as int).1);
        }
        if flags[t as int] {
            let kk = choose|kk: int|
                0 <= kk < ia[t as int].len() && (ia[t as int][kk] as int) < fd.len() && fd[ia[
                    t as int
                ][kk] as int] && (#[trigger] M::spec_update(m, ia[t as int][kk] as int, t as int)).1;
            let s = ia[t as int][kk];
            assert(oa[ia[t as int][kk] as int].contains(t as usize));
            let j = choose|j: int| 0 <= j < oa[s as int].len() && oa[s as int][j] == t;
            members_dense_agree(fr, n, s);
            assert(fr.members().contains(s));
            assert(fs.to_set().contains(s));
            let x = choose|x: int| 0 <= x < fs.len() && fs[x] == s;
            assert(0 <= x < fs.len() && 0 <= j < oa[fs[x] as int].len() && (
            #[trigger] oa[fs[x] as int][j]) == t && M::spec_check(m, t as int) && M::spec_update(
                m,
                fs[x] as int,
                t as int,
            ).1);
        }
    }
}

} // verus!
