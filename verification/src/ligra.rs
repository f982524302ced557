//! The frontier transformation primitives: `relationship_map` with its
//! direction-optimized sparse (push) and dense (pull) paths, and the
//! vertex-wise `node_map` and `node_filter`.
//!
//! A mapper carries per-node state; its trait binds each executable method to
//! a specification function over the mapper's abstract view, so that the
//! primitives' contracts can state the exact fold their loops compute.

use crate::graph::AdjacencyGraph;
use crate::node_set::NodeSubset;
use crate::node_set::count_true;
use crate::node_set::distinct;
use crate::node_set::sparse_of_dense;
use vstd::prelude::*;
use vstd::slice::slice_index_get;

verus! {

broadcast use vstd::std_specs::vec::axiom_spec_len;

/// An edge relaxation: `update(source, target)` mutates the carried state and
/// says whether `target` joins the output frontier; `check(target)` is the
/// early-termination predicate of the pull path.
pub trait RelationshipMapper: Sized + View {
    /// Size of the per-node state the mapper carries.
    spec fn state_len(m: Self::V) -> nat;

    /// The relaxation on the abstract state: successor state and whether the
    /// target is emitted.
    spec fn spec_update(m: Self::V, source: int, target: int) -> (Self::V, bool);

    /// The early-termination predicate on the abstract state.
    spec fn spec_check(m: Self::V, target: int) -> bool;

    /// Whether callers of this mapper forgo the output frontier.
    spec fn spec_has_no_result() -> bool;

    proof fn update_preserves_len(m: Self::V, source: int, target: int)
        requires
            0 <= source < Self::state_len(m),
            0 <= target < Self::state_len(m),
        ensures
            Self::state_len(Self::spec_update(m, source, target).0) == Self::state_len(m),
    ;

    fn update(&mut self, source: usize, target: usize) -> (r: bool)
        requires
            (source as int) < Self::state_len(old(self)@),
            (target as int) < Self::state_len(old(self)@),
        ensures
            final(self)@ == Self::spec_update(old(self)@, source as int, target as int).0,
            r == Self::spec_update(old(self)@, source as int, target as int).1,
    ;

    fn check(&self, target: usize) -> (r: bool)
        requires
            (target as int) < Self::state_len(self@),
        ensures
            r == Self::spec_check(self@, target as int),
    ;

    fn has_no_result(&self) -> (r: bool)
        ensures
            r == Self::spec_has_no_result(),
    ;
}

/// A vertex relaxation: `update(node)` mutates the carried state and says
/// whether `node` is kept by `node_filter`.
pub trait NodeMapper: Sized + View {
    /// Size of the per-node state the mapper carries.
    spec fn state_len(m: Self::V) -> nat;

    /// The relaxation on the abstract state: successor state and whether the
    /// node is kept.
    spec fn spec_update(m: Self::V, node: int) -> (Self::V, bool);

    proof fn update_preserves_len(m: Self::V, node: int)
        requires
            0 <= node < Self::state_len(m),
        ensures
            Self::state_len(Self::spec_update(m, node).0) == Self::state_len(m),
    ;

    fn update(&mut self, node: usize) -> (r: bool)
        requires
            (node as int) < Self::state_len(old(self)@),
        ensures
            final(self)@ == Self::spec_update(old(self)@, node as int).0,
            r == Self::spec_update(old(self)@, node as int).1,
    ;
}

// ---------------------------------------------------------------------------
// Vector constructors shared by the algorithms.
// ---------------------------------------------------------------------------

/// Builds a vector of `len` elements where element `i` is `f(i)`.
#[verifier::loop_isolation(false)]
pub fn par_vec<T, F: Fn(usize) -> T>(len: usize, f: F) -> (r: Vec<T>)
    requires
        forall|i: usize| i < len ==> f.requires((i,)),
    ensures
        r@.len() == len,
        forall|i: int| 0 <= i < len ==> f.ensures((i as usize,), #[trigger] r@[i]),
{
    let mut data: Vec<T> = Vec::new();
    let mut i: usize = 0;
    while i < len
        invariant
            i <= len,
            data@.len() == i,
            forall|k: int| 0 <= k < i ==> f.ensures((k as usize,), #[trigger] data@[k]),
        decreases len - i,
    {
        let value = f(i);
        data.push(value);
        i = i + 1;
    }
    data
}

/// Builds a vector of `len` elements drawn from `f()`.
#[verifier::loop_isolation(false)]
pub fn par_vec_with<T, F: Fn() -> T>(len: usize, f: F) -> (r: Vec<T>)
    requires
        len > 0 ==> f.requires(()),
    ensures
        r@.len() == len,
        forall|i: int| 0 <= i < len ==> f.ensures((), #[trigger] r@[i]),
{
    let mut data: Vec<T> = Vec::new();
    let mut i: usize = 0;
    while i < len
        invariant
            i <= len,
            data@.len() == i,
            forall|k: int| 0 <= k < i ==> f.ensures((), #[trigger] data@[k]),
        decreases len - i,
    {
        let value = f();
        data.push(value);
        i = i + 1;
    }
    data
}

/// Builds a vector of `len` copies of an initial value.
#[verifier::loop_isolation(false)]
pub fn par_vec_copy<T: Copy>(len: usize, initial_value: T) -> (r: Vec<T>)
    ensures
        r@.len() == len,
        forall|i: int| 0 <= i < len ==> #[trigger] r@[i] == initial_value,
{
    let mut data: Vec<T> = Vec::new();
    let mut i: usize = 0;
    while i < len
        invariant
            i <= len,
            data@.len() == i,
            forall|k: int| 0 <= k < i ==> #[trigger] data@[k] == initial_value,
        decreases len - i,
    {
        data.push(initial_value);
        i = i + 1;
    }
    data
}

// ---------------------------------------------------------------------------
// The folds the primitives compute, written as prefix recursions so that the
// loops' invariants can state them directly.
// ---------------------------------------------------------------------------

/// Push along the first `j` out-edges of source `s`: relax each target that
/// passes `check`, collecting the targets whose relaxation was accepted.
pub open spec fn push_src_upto<M: RelationshipMapper>(
    m: M::V,
    s: usize,
    ts: Seq<usize>,
    j: int,
) -> (M::V, Seq<usize>)
    decreases j,
{
    if j <= 0 {
        (m, Seq::empty())
    } else {
        let prev = push_src_upto::<M>(m, s, ts, j - 1);
        let t = ts[j - 1];
        if M::spec_check(prev.0, t as int) {
            let step = M::spec_update(prev.0, s as int, t as int);
            (step.0, if step.1 {
                prev.1.push(t)
            } else {
                prev.1
            })
        } else {
            prev
        }
    }
}

/// One whole source.
pub open spec fn push_src<M: RelationshipMapper>(m: M::V, s: usize, ts: Seq<usize>) -> (
    M::V,
    Seq<usize>,
) {
    push_src_upto::<M>(m, s, ts, ts.len() as int)
}

/// Push from the first `i` frontier members, concatenating their emissions.
pub open spec fn push_upto<M: RelationshipMapper>(
    m: M::V,
    out_adj: Seq<Seq<usize>>,
    fr: Seq<usize>,
    i: int,
) -> (M::V, Seq<usize>)
    decreases i,
{
    if i <= 0 {
        (m, Seq::empty())
    } else {
        let prev = push_upto::<M>(m, out_adj, fr, i - 1);
        let one = push_src::<M>(prev.0, fr[i - 1], out_adj[fr[i - 1] as int]);
        (one.0, prev.1 + one.1)
    }
}

/// Scan the first `k` in-neighbors of target `t`: relax each frontier member
/// and stop once `check(t)` turns false. Returns the state, whether some
/// relaxation was accepted, and whether the scan stopped early.
pub open spec fn pull_tgt_upto<M: RelationshipMapper>(
    m: M::V,
    t: usize,
    srcs: Seq<usize>,
    fd: Seq<bool>,
    k: int,
) -> (M::V, bool, bool)
    decreases k,
{
    if k <= 0 {
        (m, false, false)
    } else {
        let prev = pull_tgt_upto::<M>(m, t, srcs, fd, k - 1);
        if prev.2 {
            prev
        } else {
            let s = srcs[k - 1];
            if (s as int) < fd.len() && fd[s as int] {
                let step = M::spec_update(prev.0, s as int, t as int);
                (step.0, prev.1 || step.1, !M::spec_check(step.0, t as int))
            } else {
                prev
            }
        }
    }
}

/// One whole target scan: the state and whether the target is emitted.
pub open spec fn pull_tgt<M: RelationshipMapper>(
    m: M::V,
    t: usize,
    srcs: Seq<usize>,
    fd: Seq<bool>,
) -> (M::V, bool) {
    let r = pull_tgt_upto::<M>(m, t, srcs, fd, srcs.len() as int);
    (r.0, r.1)
}

/// Pull into the first `t` targets, collecting one emission flag per target.
pub open spec fn pull_upto<M: RelationshipMapper>(
    m: M::V,
    inc_adj: Seq<Seq<usize>>,
    fd: Seq<bool>,
    t: int,
) -> (M::V, Seq<bool>)
    decreases t,
{
    if t <= 0 {
        (m, Seq::empty())
    } else {
        let prev = pull_upto::<M>(m, inc_adj, fd, t - 1);
        if M::spec_check(prev.0, t - 1) {
            let one = pull_tgt::<M>(prev.0, (t - 1) as usize, inc_adj[t - 1], fd);
            (one.0, prev.1.push(one.1))
        } else {
            (prev.0, prev.1.push(false))
        }
    }
}

/// Apply a node mapper to the first `i` members of a sparse frontier,
/// collecting the kept members.
pub open spec fn nm_sparse_upto<M: NodeMapper>(m: M::V, fr: Seq<usize>, i: int) -> (
    M::V,
    Seq<usize>,
)
    decreases i,
{
    if i <= 0 {
        (m, Seq::empty())
    } else {
        let prev = nm_sparse_upto::<M>(m, fr, i - 1);
        let v = fr[i - 1];
        let step = M::spec_update(prev.0, v as int);
        (step.0, if step.1 {
            prev.1.push(v)
        } else {
            prev.1
        })
    }
}

/// Apply a node mapper to the members among the first `v` nodes of a dense
/// frontier, collecting one kept-flag per node.
pub open spec fn nm_dense_upto<M: NodeMapper>(m: M::V, fd: Seq<bool>, v: int) -> (M::V, Seq<bool>)
    decreases v,
{
    if v <= 0 {
        (m, Seq::empty())
    } else {
        let prev = nm_dense_upto::<M>(m, fd, v - 1);
        if fd[v - 1] {
            let step = M::spec_update(prev.0, v - 1);
            (step.0, prev.1.push(step.1))
        } else {
            (prev.0, prev.1.push(false))
        }
    }
}

// ---------------------------------------------------------------------------
// Work census and frontier preconditions.
// ---------------------------------------------------------------------------

/// Outgoing work of the first `i` members of a sparse frontier.
pub open spec fn work_sparse_upto(out_adj: Seq<Seq<usize>>, fr: Seq<usize>, i: int) -> nat
    decreases i,
{
    if i <= 0 {
        0
    } else {
        work_sparse_upto(out_adj, fr, i - 1) + out_adj[fr[i - 1] as int].len()
    }
}

/// Outgoing work of the members among the first `v` nodes of a dense frontier.
pub open spec fn work_dense_upto(out_adj: Seq<Seq<usize>>, fd: Seq<bool>, v: int) -> nat
    decreases v,
{
    if v <= 0 {
        0
    } else {
        work_dense_upto(out_adj, fd, v - 1) + if fd[v - 1] {
            out_adj[v - 1].len()
        } else {
            0
        }
    }
}

/// The estimated edge work of a frontier, on its active representation.
pub open spec fn rm_work(g: AdjacencyGraph, fr: NodeSubset) -> nat {
    if fr.is_dense {
        work_dense_upto(g.out_adj(), fr.dense_seq(), fr.dense_seq().len() as int)
    } else if fr.sparse is Some {
        work_sparse_upto(g.out_adj(), fr.sparse_seq(), fr.sparse_seq().len() as int)
    } else {
        0
    }
}

/// A frontier fit for the primitives over a graph of `n` nodes: well formed,
/// over the right universe, a dense bitmap covering the whole universe, a
/// sparse list of distinct in-range ids.
pub open spec fn frontier_ok(fr: NodeSubset, n: nat) -> bool {
    &&& fr.wf()
    &&& fr.node_count as nat == n
    &&& (fr.is_dense ==> fr.dense_seq().len() == n)
    &&& (!fr.is_dense ==> fr.sparse is Some || fr.subset_count == 0)
    &&& (fr.sparse is Some ==> distinct(fr.sparse_seq()) && forall|i: int|
        0 <= i < fr.sparse_seq().len() ==> (#[trigger] fr.sparse_seq()[i] as int) < n)
}

/// The sparse member list the push path works on: the frontier's own list, or
/// the ascending list read off its dense bitmap.
pub open spec fn sparse_form(fr: NodeSubset) -> Seq<usize> {
    if fr.sparse is Some {
        fr.sparse_seq()
    } else if fr.dense is Some {
        sparse_of_dense(fr.dense_seq())
    } else {
        Seq::empty()
    }
}

/// The dense bitmap the pull path works on: the frontier's own bitmap, or the
/// bits of its sparse list over a universe of `n` nodes.
pub open spec fn dense_form(fr: NodeSubset, n: nat) -> Seq<bool> {
    if fr.dense is Some {
        fr.dense_seq()
    } else {
        Seq::new(n, |v: int| fr.sparse_seq().contains(v as usize))
    }
}

/// What `relationship_map` does: nothing on an empty frontier; otherwise the
/// pull fold over the dense form when the estimated work exceeds the graph's
/// threshold, and the push fold over the sparse form when it does not. A
/// mapper that forgoes its result leaves no output frontier: the pull path
/// empties the frontier, the push path leaves its membership unchanged.
pub open spec fn rm_post<M: RelationshipMapper>(
    g: AdjacencyGraph,
    fr0: NodeSubset,
    m0: M::V,
    fr1: NodeSubset,
    m1: M::V,
) -> bool {
    let n = g.spec_node_count();
    if fr0.subset_count == 0 {
        fr1 == fr0 && m1 == m0
    } else if rm_work(g, fr0) > g.threshold {
        let fd = dense_form(fr0, n);
        let res = pull_upto::<M>(m0, g.inc_adj(), fd, n as int);
        &&& m1 == res.0
        &&& fr1.node_count == fr0.node_count
        &&& if M::spec_has_no_result() {
            fr1.subset_count == 0 && fr1.sparse is None && fr1.dense is None && !fr1.is_dense
        } else {
            fr1.is_dense && fr1.dense is Some && fr1.dense_seq() == res.1 && fr1.sparse is None
                && fr1.subset_count == count_true(res.1)
        }
    } else {
        let fs = sparse_form(fr0);
        let res = push_upto::<M>(m0, g.out_adj(), fs, fs.len() as int);
        &&& m1 == res.0
        &&& fr1.node_count == fr0.node_count
        &&& if M::spec_has_no_result() {
            !fr1.is_dense && fr1.subset_count == fr0.subset_count && fr1.members()
                == fr0.members()
        } else {
            !fr1.is_dense && fr1.sparse is Some && fr1.sparse_seq() == res.1 && fr1.dense is None
                && fr1.subset_count == res.1.len()
        }
    }
}

// ---------------------------------------------------------------------------
// Facts about the folds that every caller needs: they preserve the state
// size, and they only emit in-range node ids.
// ---------------------------------------------------------------------------

pub proof fn lemma_push_src_upto_len<M: RelationshipMapper>(
    m: M::V,
    s: usize,
    ts: Seq<usize>,
    j: int,
)
    requires
        j <= ts.len(),
        (s as int) < M::state_len(m),
        forall|x: int| 0 <= x < ts.len() ==> (#[trigger] ts[x] as int) < M::state_len(m),
    ensures
        M::state_len(push_src_upto::<M>(m, s, ts, j).0) == M::state_len(m),
        forall|x: int|
            0 <= x < push_src_upto::<M>(m, s, ts, j).1.len() ==> ts.contains(
                #[trigger] push_src_upto::<M>(m, s, ts, j).1[x],
            ),
    decreases j,
{
    if j > 0 {
        lemma_push_src_upto_len::<M>(m, s, ts, j - 1);
        let prev = push_src_upto::<M>(m, s, ts, j - 1);
        let t = ts[j - 1];
        if M::spec_check(prev.0, t as int) {
            assert((t as int) < M::state_len(prev.0));
            M::update_preserves_len(prev.0, s as int, t as int);
        }
        assert(ts.contains(t));
    }
}

pub proof fn lemma_pull_tgt_upto_len<M: RelationshipMapper>(
    m: M::V,
    t: usize,
    srcs: Seq<usize>,
    fd: Seq<bool>,
    k: int,
)
    requires
        k <= srcs.len(),
        (t as int) < M::state_len(m),
        forall|x: int| 0 <= x < srcs.len() ==> (#[trigger] srcs[x] as int) < M::state_len(m),
    ensures
        M::state_len(pull_tgt_upto::<M>(m, t, srcs, fd, k).0) == M::state_len(m),
    decreases k,
{
    if k > 0 {
        lemma_pull_tgt_upto_len::<M>(m, t, srcs, fd, k - 1);
        let prev = pull_tgt_upto::<M>(m, t, srcs, fd, k - 1);
        if !prev.2 {
            let s = srcs[k - 1];
            if (s as int) < fd.len() && fd[s as int] {
                M::update_preserves_len(prev.0, s as int, t as int);
            }
        }
    }
}

/// A stopped scan stays stopped: the fold is unchanged past the stop.
pub proof fn lemma_pull_tgt_upto_stopped<M: RelationshipMapper>(
    m: M::V,
    t: usize,
    srcs: Seq<usize>,
    fd: Seq<bool>,
    k: int,
    k2: int,
)
    requires
        0 <= k <= k2,
        pull_tgt_upto::<M>(m, t, srcs, fd, k).2,
    ensures
        pull_tgt_upto::<M>(m, t, srcs, fd, k2) == pull_tgt_upto::<M>(m, t, srcs, fd, k),
    decreases k2 - k,
{
    if k2 > k {
        lemma_pull_tgt_upto_stopped::<M>(m, t, srcs, fd, k, k2 - 1);
    }
}

pub proof fn lemma_nm_sparse_upto_len<M: NodeMapper>(m: M::V, fr: Seq<usize>, i: int)
    requires
        i <= fr.len(),
        forall|x: int| 0 <= x < fr.len() ==> (#[trigger] fr[x] as int) < M::state_len(m),
    ensures
        M::state_len(nm_sparse_upto::<M>(m, fr, i).0) == M::state_len(m),
        forall|x: int|
            0 <= x < nm_sparse_upto::<M>(m, fr, i).1.len() ==> fr.contains(
                #[trigger] nm_sparse_upto::<M>(m, fr, i).1[x],
            ),
    decreases i,
{
    if i > 0 {
        lemma_nm_sparse_upto_len::<M>(m, fr, i - 1);
        let prev = nm_sparse_upto::<M>(m, fr, i - 1);
        M::update_preserves_len(prev.0, fr[i - 1] as int);
        assert(fr.contains(fr[i - 1]));
    }
}

pub proof fn lemma_nm_dense_upto_len<M: NodeMapper>(m: M::V, fd: Seq<bool>, v: int)
    requires
        v <= fd.len(),
        fd.len() <= M::state_len(m),
    ensures
        M::state_len(nm_dense_upto::<M>(m, fd, v).0) == M::state_len(m),
        nm_dense_upto::<M>(m, fd, v).1.len() == if v <= 0 {
            0
        } else {
            v as nat
        },
    decreases v,
{
    if v > 0 {
        lemma_nm_dense_upto_len::<M>(m, fd, v - 1);
        let prev = nm_dense_upto::<M>(m, fd, v - 1);
        if fd[v - 1] {
            M::update_preserves_len(prev.0, v - 1);
        }
    }
}

// ---------------------------------------------------------------------------
// The primitives.
// ---------------------------------------------------------------------------

/// Push the out-edges of one source, returning the accepted targets in edge
/// order.
#[verifier::loop_isolation(false)]
fn push_scan<M: RelationshipMapper>(graph: &AdjacencyGraph, mapper: &mut M, s: usize) -> (em: Vec<
    usize,
>)
    requires
        graph.wf(),
        M::state_len(old(mapper)@) == graph.spec_node_count(),
        (s as int) < graph.spec_node_count(),
    ensures
        final(mapper)@ == push_src::<M>(old(mapper)@, s, graph.out_adj()[s as int]).0,
        em@ == push_src::<M>(old(mapper)@, s, graph.out_adj()[s as int]).1,
        M::state_len(final(mapper)@) == graph.spec_node_count(),
{
    proof {
        crate::graph::lemma_adj_views(*graph);
    }
    let ghost m0 = mapper@;
    let ghost ts = graph.out_adj()[s as int];
    let out = graph.out(s);
    let deg = out.len();
    let mut em: Vec<usize> = Vec::new();
    let mut j: usize = 0;
    while j < deg
        invariant
            j <= deg,
            mapper@ == push_src_upto::<M>(m0, s, ts, j as int).0,
            em@ == push_src_upto::<M>(m0, s, ts, j as int).1,
            M::state_len(mapper@) == graph.spec_node_count(),
        decreases deg - j,
    {
        let t = *slice_index_get(out, j);
        proof {
            assert(ts[j as int] == t);
            assert((t as int) < graph.spec_node_count());
            lemma_push_src_upto_len::<M>(m0, s, ts, j + 1);
        }
        if mapper.check(t) {
            let accepted = mapper.update(s, t);
            if accepted {
                em.push(t);
            }
        }
        j = j + 1;
    }
    proof {
        assert(push_src_upto::<M>(m0, s, ts, deg as int) == push_src::<M>(m0, s, ts));
    }
    em
}

/// Scan the in-neighbors of one target, stopping once `check` fails; returns
/// whether some relaxation was accepted.
#[verifier::loop_isolation(false)]
fn pull_scan<M: RelationshipMapper>(
    graph: &AdjacencyGraph,
    node_subset: &NodeSubset,
    mapper: &mut M,
    t: usize,
) -> (emitted: bool)
    requires
        graph.wf(),
        node_subset.dense is Some,
        node_subset.dense_seq().len() == graph.spec_node_count(),
        M::state_len(old(mapper)@) == graph.spec_node_count(),
        (t as int) < graph.spec_node_count(),
    ensures
        final(mapper)@ == pull_tgt::<M>(
            old(mapper)@,
            t,
            graph.inc_adj()[t as int],
            node_subset.dense_seq(),
        ).0,
        emitted == pull_tgt::<M>(
            old(mapper)@,
            t,
            graph.inc_adj()[t as int],
            node_subset.dense_seq(),
        ).1,
        M::state_len(final(mapper)@) == graph.spec_node_count(),
{
    proof {
        crate::graph::lemma_adj_views(*graph);
    }
    let ghost m0 = mapper@;
    let ghost srcs = graph.inc_adj()[t as int];
    let ghost fd = node_subset.dense_seq();
    let inc = graph.inc(t);
    let len = inc.len();
    let mut emitted = false;
    let mut stopped = false;
    let mut k: usize = 0;
    while k < len && !stopped
        invariant
            k <= len,
            mapper@ == pull_tgt_upto::<M>(m0, t, srcs, fd, k as int).0,
            emitted == pull_tgt_upto::<M>(m0, t, srcs, fd, k as int).1,
            stopped == pull_tgt_upto::<M>(m0, t, srcs, fd, k as int).2,
            M::state_len(mapper@) == graph.spec_node_count(),
        decreases len - k,
    {
        let s = *slice_index_get(inc, k);
        proof {
            assert(srcs[k as int] == s);
            assert((s as int) < graph.spec_node_count());
            lemma_pull_tgt_upto_len::<M>(m0, t, srcs, fd, k + 1);
        }
        if node_subset.contains(s) {
            let accepted = mapper.update(s, t);
            if accepted {
                emitted = true;
            }
            if !mapper.check(t) {
                stopped = true;
            }
        }
        k = k + 1;
    }
    proof {
        if stopped {
            lemma_pull_tgt_upto_stopped::<M>(m0, t, srcs, fd, k as int, len as int);
        }
    }
    emitted
}

/// The sparse (push) path over a sparse frontier.
#[verifier::loop_isolation(false)]
fn relationship_map_sparse<M: RelationshipMapper>(
    graph: &AdjacencyGraph,
    node_subset: &mut NodeSubset,
    mapper: &mut M,
)
    requires
        graph.wf(),
        old(node_subset).wf(),
        !old(node_subset).is_dense,
        old(node_subset).node_count as nat == graph.spec_node_count(),
        old(node_subset).sparse is Some,
        forall|i: int|
            0 <= i < old(node_subset).sparse_seq().len() ==> (#[trigger] old(
                node_subset,
            ).sparse_seq()[i] as int) < graph.spec_node_count(),
        M::state_len(old(mapper)@) == graph.spec_node_count(),
    ensures
        M::state_len(final(mapper)@) == graph.spec_node_count(),
        final(mapper)@ == push_upto::<M>(
            old(mapper)@,
            graph.out_adj(),
            old(node_subset).sparse_seq(),
            old(node_subset).sparse_seq().len() as int,
        ).0,
        ({
            let res = push_upto::<M>(
                old(mapper)@,
                graph.out_adj(),
                old(node_subset).sparse_seq(),
                old(node_subset).sparse_seq().len() as int,
            );
            if M::spec_has_no_result() {
                *final(node_subset) == *old(node_subset)
            } else {
                &&& !final(node_subset).is_dense
                &&& final(node_subset).sparse is Some
                &&& final(node_subset).dense is None
                &&& final(node_subset).sparse_seq() == res.1
                &&& final(node_subset).subset_count == res.1.len()
                &&& final(node_subset).node_count == old(node_subset).node_count
                &&& final(node_subset).wf()
            }
        }),
{
    let ghost m0 = mapper@;
    let ghost fr = node_subset.sparse_seq();
    let node_count = node_subset.node_count();
    let len = node_subset.subset_count();
    if mapper.has_no_result() {
        let mut i: usize = 0;
        while i < len
            invariant
                i <= len,
                len == fr.len(),
                mapper@ == push_upto::<M>(m0, graph.out_adj(), fr, i as int).0,
                M::state_len(mapper@) == graph.spec_node_count(),
            decreases len - i,
        {
            let s = node_subset.node(i);
            let _ = push_scan(graph, mapper, s);
            i = i + 1;
        }
    } else {
        let mut out_rels: Vec<usize> = Vec::new();
        let mut i: usize = 0;
        while i < len
            invariant
                i <= len,
                len == fr.len(),
                mapper@ == push_upto::<M>(m0, graph.out_adj(), fr, i as int).0,
                out_rels@ == push_upto::<M>(m0, graph.out_adj(), fr, i as int).1,
                M::state_len(mapper@) == graph.spec_node_count(),
            decreases len - i,
        {
            let s = node_subset.node(i);
            let mut em = push_scan(graph, mapper, s);
            out_rels.append(&mut em);
            i = i + 1;
        }
        *node_subset = NodeSubset::sparse(node_count, out_rels);
    }
}

/// The dense (pull) path over a dense frontier covering the whole universe.
#[verifier::loop_isolation(false)]
fn relationship_map_dense<M: RelationshipMapper>(
    graph: &AdjacencyGraph,
    node_subset: &mut NodeSubset,
    mapper: &mut M,
)
    requires
        graph.wf(),
        old(node_subset).wf(),
        old(node_subset).dense is Some,
        old(node_subset).dense_seq().len() == graph.spec_node_count(),
        old(node_subset).node_count as nat == graph.spec_node_count(),
        M::state_len(old(mapper)@) == graph.spec_node_count(),
    ensures
        M::state_len(final(mapper)@) == graph.spec_node_count(),
        final(mapper)@ == pull_upto::<M>(
            old(mapper)@,
            graph.inc_adj(),
            old(node_subset).dense_seq(),
            graph.spec_node_count() as int,
        ).0,
        final(node_subset).node_count == old(node_subset).node_count,
        ({
            let res = pull_upto::<M>(
                old(mapper)@,
                graph.inc_adj(),
                old(node_subset).dense_seq(),
                graph.spec_node_count() as int,
            );
            if M::spec_has_no_result() {
                &&& final(node_subset).subset_count == 0
                &&& final(node_subset).sparse is None
                &&& final(node_subset).dense is None
                &&& !final(node_subset).is_dense
                &&& final(node_subset).wf()
            } else {
                &&& final(node_subset).is_dense
                &&& final(node_subset).dense is Some
                &&& final(node_subset).sparse is None
                &&& final(node_subset).dense_seq() == res.1
                &&& final(node_subset).subset_count == count_true(res.1)
                &&& final(node_subset).wf()
            }
        }),
{
    let ghost m0 = mapper@;
    let ghost fd = node_subset.dense_seq();
    let node_count = node_subset.node_count();
    if mapper.has_no_result() {
        let mut t: usize = 0;
        while t < node_count
            invariant
                t <= node_count,
                node_subset == old(node_subset),
                mapper@ == pull_upto::<M>(m0, graph.inc_adj(), fd, t as int).0,
                M::state_len(mapper@) == graph.spec_node_count(),
            decreases node_count - t,
        {
            if mapper.check(t) {
                let _ = pull_scan(graph, node_subset, mapper, t);
            }
            t = t + 1;
        }
        *node_subset = NodeSubset::empty(node_count);
    } else {
        let mut next: Vec<bool> = Vec::new();
        let mut t: usize = 0;
        while t < node_count
            invariant
                t <= node_count,
                node_subset == old(node_subset),
                mapper@ == pull_upto::<M>(m0, graph.inc_adj(), fd, t as int).0,
                next@ == pull_upto::<M>(m0, graph.inc_adj(), fd, t as int).1,
                M::state_len(mapper@) == graph.spec_node_count(),
            decreases node_count - t,
        {
            if mapper.check(t) {
                let emitted = pull_scan(graph, node_subset, mapper, t);
                next.push(emitted);
            } else {
                next.push(false);
            }
            t = t + 1;
        }
        *node_subset = NodeSubset::dense(node_count, next);
    }
}

/// The direction-optimized edge-wise transformation: a census of the
/// frontier's outgoing work picks the dense (pull) path when it exceeds the
/// graph's threshold and the sparse (push) path otherwise; the frontier is
/// converted to the chosen representation and replaced by the fold's output.
#[verifier::loop_isolation(false)]
pub fn relationship_map<M: RelationshipMapper>(
    graph: &AdjacencyGraph,
    node_subset: &mut NodeSubset,
    mapper: &mut M,
)
    requires
        graph.wf(),
        frontier_ok(*old(node_subset), graph.spec_node_count()),
        M::state_len(old(mapper)@) == graph.spec_node_count(),
    ensures
        M::state_len(final(mapper)@) == graph.spec_node_count(),
        final(node_subset).wf(),
        final(node_subset).node_count == old(node_subset).node_count,
        rm_post::<M>(*graph, *old(node_subset), old(mapper)@, *final(node_subset), final(mapper)@),
{
    let node_count = graph.node_count();
    if node_subset.subset_count() == 0 {
        return ;
    }
    let ghost fr0 = *node_subset;
    let mut w: u128 = 0;
    if node_subset.is_dense() {
        let mut v: usize = 0;
        while v < node_count
            invariant
                v <= node_count,
                w == work_dense_upto(graph.out_adj(), fr0.dense_seq(), v as int),
                w <= (v as u128) * 0xFFFF_FFFF_FFFF_FFFFu128,
                *node_subset == fr0,
            decreases node_count - v,
        {
            proof {
                assert(w + 0xFFFF_FFFF_FFFF_FFFFu128 <= ((v + 1) as u128)
                    * 0xFFFF_FFFF_FFFF_FFFFu128) by (nonlinear_arith)
                    requires
                        w <= (v as u128) * 0xFFFF_FFFF_FFFF_FFFFu128,
                ;
                assert(((v + 1) as u128) * 0xFFFF_FFFF_FFFF_FFFFu128 < u128::MAX) by (
                nonlinear_arith)
                    requires
                        v < 0xFFFF_FFFF_FFFF_FFFFu128,
                ;
            }
            if node_subset.contains(v) {
                let d = graph.out_degree(v);
                proof {
                    assert((d as u128) <= 0xFFFF_FFFF_FFFF_FFFFu128);
                }
                w = w + (d as u128);
            }
            v = v + 1;
        }
    } else {
        let len = node_subset.subset_count();
        let mut i: usize = 0;
        while i < len
            invariant
                i <= len,
                len == fr0.sparse_seq().len(),
                w == work_sparse_upto(graph.out_adj(), fr0.sparse_seq(), i as int),
                w <= (i as u128) * 0xFFFF_FFFF_FFFF_FFFFu128,
                *node_subset == fr0,
            decreases len - i,
        {
            proof {
                assert(w + 0xFFFF_FFFF_FFFF_FFFFu128 <= ((i + 1) as u128)
                    * 0xFFFF_FFFF_FFFF_FFFFu128) by (nonlinear_arith)
                    requires
                        w <= (i as u128) * 0xFFFF_FFFF_FFFF_FFFFu128,
                ;
                assert(((i + 1) as u128) * 0xFFFF_FFFF_FFFF_FFFFu128 < u128::MAX) by (
                nonlinear_arith)
                    requires
                        i < 0xFFFF_FFFF_FFFF_FFFFu128,
                ;
            }
            let s = node_subset.node(i);
            let d = graph.out_degree(s);
            proof {
                assert((d as u128) <= 0xFFFF_FFFF_FFFF_FFFFu128);
            }
            w = w + (d as u128);
            i = i + 1;
        }
    }
    proof {
        assert(w == rm_work(*graph, fr0));
    }
    let threshold = graph.threshold();
    if w > threshold as u128 {
        node_subset.to_dense();
        proof {
            if fr0.dense is None {
                assert forall|v: int|
                    0 <= v < graph.spec_node_count() implies node_subset.dense_seq()[v]
                    == fr0.sparse_seq().contains(v as usize) by {
                    assert(node_subset.members().contains(v as usize) == fr0.members().contains(
                        v as usize,
                    ));
                }
            }
            assert(node_subset.dense_seq() =~= dense_form(fr0, graph.spec_node_count()));
        }
        relationship_map_dense(graph, node_subset, mapper);
    } else {
        node_subset.to_sparse();
        proof {
            assert(node_subset.sparse is Some);
            assert(node_subset.sparse_seq() =~= sparse_form(fr0));
            if fr0.dense is Some {
                crate::node_set::lemma_sparse_of_dense(fr0.dense_seq());
            }
        }
        relationship_map_sparse(graph, node_subset, mapper);
    }
}

/// Applies the mapper to every frontier member; sparse members in list order,
/// dense members in ascending id order. Produces no frontier.
#[verifier::loop_isolation(false)]
pub fn node_map<M: NodeMapper>(node_subset: &NodeSubset, mapper: &mut M)
    requires
        node_subset.wf(),
        frontier_ok(*node_subset, M::state_len(old(mapper)@)),
        !node_subset.is_dense ==> node_subset.sparse is Some || node_subset.subset_count == 0,
    ensures
        M::state_len(final(mapper)@) == M::state_len(old(mapper)@),
        final(mapper)@ == if node_subset.is_dense {
            nm_dense_upto::<M>(
                old(mapper)@,
                node_subset.dense_seq(),
                node_subset.dense_seq().len() as int,
            ).0
        } else if node_subset.sparse is Some {
            nm_sparse_upto::<M>(
                old(mapper)@,
                node_subset.sparse_seq(),
                node_subset.sparse_seq().len() as int,
            ).0
        } else {
            old(mapper)@
        },
{
    let ghost m0 = mapper@;
    if node_subset.is_dense() {
        let node_count = node_subset.node_count();
        let ghost fd = node_subset.dense_seq();
        let mut v: usize = 0;
        while v < node_count
            invariant
                v <= node_count,
                mapper@ == nm_dense_upto::<M>(m0, fd, v as int).0,
                M::state_len(mapper@) == M::state_len(m0),
            decreases node_count - v,
        {
            proof {
                lemma_nm_dense_upto_len::<M>(m0, fd, v + 1);
            }
            if node_subset.contains(v) {
                let _ = mapper.update(v);
            }
            v = v + 1;
        }
    } else if node_subset.subset_count() > 0 {
        let len = node_subset.subset_count();
        let ghost fr = node_subset.sparse_seq();
        let mut i: usize = 0;
        while i < len
            invariant
                i <= len,
                len == fr.len(),
                mapper@ == nm_sparse_upto::<M>(m0, fr, i as int).0,
                M::state_len(mapper@) == M::state_len(m0),
            decreases len - i,
        {
            proof {
                lemma_nm_sparse_upto_len::<M>(m0, fr, i + 1);
            }
            let v = node_subset.node(i);
            let _ = mapper.update(v);
            i = i + 1;
        }
    }
}

/// Applies the mapper to every frontier member and returns the frontier of
/// the members it kept, in the representation of the input: a dense input
/// yields a dense output, a sparse input a compacted sparse output in list
/// order.
#[verifier::loop_isolation(false)]
pub fn node_filter<M: NodeMapper>(node_subset: &NodeSubset, mapper: &mut M) -> (r: NodeSubset)
    requires
        node_subset.wf(),
        frontier_ok(*node_subset, M::state_len(old(mapper)@)),
        !node_subset.is_dense ==> node_subset.sparse is Some || node_subset.subset_count == 0,
    ensures
        M::state_len(final(mapper)@) == M::state_len(old(mapper)@),
        r.wf(),
        r.node_count == node_subset.node_count,
        if node_subset.is_dense {
            let res = nm_dense_upto::<M>(
                old(mapper)@,
                node_subset.dense_seq(),
                node_subset.dense_seq().len() as int,
            );
            &&& final(mapper)@ == res.0
            &&& r.is_dense
            &&& r.dense is Some
            &&& r.dense_seq() == res.1
            &&& r.subset_count == count_true(res.1)
        } else if node_subset.sparse is Some {
            let res = nm_sparse_upto::<M>(
                old(mapper)@,
                node_subset.sparse_seq(),
                node_subset.sparse_seq().len() as int,
            );
            &&& final(mapper)@ == res.0
            &&& !r.is_dense
            &&& r.sparse is Some
            &&& r.sparse_seq() == res.1
            &&& r.subset_count == res.1.len()
        } else {
            final(mapper)@ == old(mapper)@ && !r.is_dense && r.subset_count == 0
        },
{
    let node_count = node_subset.node_count();
    let ghost m0 = mapper@;
    if node_subset.is_dense() {
        let ghost fd = node_subset.dense_seq();
        let mut dense: Vec<bool> = Vec::new();
        let mut v: usize = 0;
        while v < node_count
            invariant
                v <= node_count,
                mapper@ == nm_dense_upto::<M>(m0, fd, v as int).0,
                dense@ == nm_dense_upto::<M>(m0, fd, v as int).1,
                M::state_len(mapper@) == M::state_len(m0),
            decreases node_count - v,
        {
            proof {
                lemma_nm_dense_upto_len::<M>(m0, fd, v + 1);
            }
            if node_subset.contains(v) {
                let kept = mapper.update(v);
                dense.push(kept);
            } else {
                dense.push(false);
            }
            v = v + 1;
        }
        NodeSubset::dense(node_count, dense)
    } else if node_subset.sparse.is_some() {
        let len = node_subset.subset_count();
        let ghost fr = node_subset.sparse_seq();
        let mut sparse: Vec<usize> = Vec::new();
        let mut i: usize = 0;
        while i < len
            invariant
                i <= len,
                len == fr.len(),
                mapper@ == nm_sparse_upto::<M>(m0, fr, i as int).0,
                sparse@ == nm_sparse_upto::<M>(m0, fr, i as int).1,
                M::state_len(mapper@) == M::state_len(m0),
            decreases len - i,
        {
            proof {
                lemma_nm_sparse_upto_len::<M>(m0, fr, i + 1);
            }
            let v = node_subset.node(i);
            let kept = mapper.update(v);
            if kept {
                sparse.push(v);
            }
            i = i + 1;
        }
        let count = sparse.len();
        NodeSubset::sparse_counted(node_count, count, sparse)
    } else {
        NodeSubset::empty(node_count)
    }
}

} // verus!
