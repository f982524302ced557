//! The frontier abstraction: a subset of the nodes `[0, node_count)` held in
//! one of two representations, a sparse list of node ids or a dense boolean
//! bitmap, with on-demand conversion between the two.

use vstd::prelude::*;

verus! {

broadcast use vstd::std_specs::vec::axiom_spec_len;

/// Number of `true` entries of a boolean sequence.
pub open spec fn count_true(s: Seq<bool>) -> nat
    decreases s.len(),
{
    if s.len() == 0 {
        0
    } else {
        count_true(s.drop_last()) + if s.last() {
            1nat
        } else {
            0nat
        }
    }
}

/// The indices of the `true` entries of a boolean sequence, in ascending order.
pub open spec fn sparse_of_dense(s: Seq<bool>) -> Seq<usize>
    decreases s.len(),
{
    if s.len() == 0 {
        Seq::empty()
    } else {
        sparse_of_dense(s.drop_last()) + if s.last() {
            seq![(s.len() - 1) as usize]
        } else {
            Seq::empty()
        }
    }
}

pub proof fn lemma_sparse_of_dense(s: Seq<bool>)
    requires
        s.len() <= usize::MAX,
    ensures
        sparse_of_dense(s).len() == count_true(s),
        forall|i: int|
            0 <= i < sparse_of_dense(s).len() ==> (sparse_of_dense(s)[i] as int) < s.len()
                && s[sparse_of_dense(s)[i] as int],
        forall|i: int, j: int|
            0 <= i < j < sparse_of_dense(s).len() ==> sparse_of_dense(s)[i] < sparse_of_dense(s)[j],
        forall|v: usize| #[trigger]
            sparse_of_dense(s).contains(v) <==> (v as int) < s.len() && s[v as int],
    decreases s.len(),
{
    if s.len() > 0 {
        lemma_sparse_of_dense(s.drop_last());
        let pre = sparse_of_dense(s.drop_last());
        assert forall|i: int| 0 <= i < pre.len() implies #[trigger] sparse_of_dense(s)[i]
            == pre[i] by {}
        if s.last() {
            assert(sparse_of_dense(s)[pre.len() as int] == (s.len() - 1) as usize);
        }
        assert forall|i: int, j: int| 0 <= i < j < sparse_of_dense(s).len() implies
            sparse_of_dense(s)[i] < sparse_of_dense(s)[j] by {
            if j < pre.len() {
                assert(pre[i] < pre[j]);
            } else {
                assert((pre[i] as int) < s.len() - 1);
            }
        }
        assert forall|v: usize| (v as int) < s.len() && s[v as int] implies sparse_of_dense(
            s,
        ).contains(v) by {
            if (v as int) < s.len() - 1 {
                assert(s.drop_last()[v as int]);
                assert(pre.contains(v));
                let i = choose|i: int| 0 <= i < pre.len() && #[trigger] pre[i] == v;
                assert(sparse_of_dense(s)[i] == v);
            } else {
                assert(s.last());
                assert(sparse_of_dense(s)[pre.len() as int] == v);
            }
        }
    }
}

/// Marking one slot `true` raises the count by one exactly when the slot was
/// not already `true`.
pub proof fn lemma_count_true_update(s: Seq<bool>, v: int)
    requires
        0 <= v < s.len(),
    ensures
        count_true(s.update(v, true)) == count_true(s) + if s[v] {
            0nat
        } else {
            1nat
        },
    decreases s.len(),
{
    if v == s.len() - 1 {
        assert(s.update(v, true).drop_last() =~= s.drop_last());
    } else {
        assert(s.update(v, true).drop_last() =~= s.drop_last().update(v, true));
        lemma_count_true_update(s.drop_last(), v);
    }
}

/// A sequence of node ids held in a frontier: each id at most once.
pub open spec fn distinct(s: Seq<usize>) -> bool {
    s.no_duplicates()
}

/// A dual-representation subset of the node universe `[0, node_count)`.
///
/// The invariant `wf` ties `subset_count` to the active representation: for a
/// populated dense bitmap it is the number of set bits, for a populated sparse
/// list it is the list's length. At most one representation is populated at a
/// time; when neither is, the subset is empty.
pub struct NodeSubset {
    pub node_count: usize,
    pub subset_count: usize,
    pub dense: Option<Vec<bool>>,
    pub sparse: Option<Vec<usize>>,
    pub is_dense: bool,
}

impl NodeSubset {
    /// Representation invariant.
    pub open spec fn wf(self) -> bool {
        &&& (self.is_dense ==> self.dense is Some)
        &&& (self.dense is Some ==> self.sparse is None && count_true(self.dense->0@)
            == self.subset_count)
        &&& (self.sparse is Some ==> self.dense is None && self.sparse->0@.len()
            == self.subset_count)
        &&& (!self.is_dense && self.sparse is None ==> self.subset_count == 0)
    }

    /// The member set, read from whichever representation is populated.
    pub open spec fn members(self) -> Set<usize> {
        if self.dense is Some {
            Set::new(|v: usize| (v as int) < self.dense->0@.len() && self.dense->0@[v as int])
        } else if self.sparse is Some {
            self.sparse->0@.to_set()
        } else {
            Set::empty()
        }
    }

    /// The sparse list as a sequence, when populated.
    pub open spec fn sparse_seq(self) -> Seq<usize> {
        self.sparse->0@
    }

    /// The dense bitmap as a sequence, when populated.
    pub open spec fn dense_seq(self) -> Seq<bool> {
        self.dense->0@
    }

    pub fn empty(node_count: usize) -> (r: Self)
        ensures
            r.wf(),
            r.node_count == node_count,
            r.subset_count == 0,
            !r.is_dense,
            r.sparse is None,
            r.dense is None,
            r.members() =~= Set::<usize>::empty(),
    {
        Self { node_count, subset_count: 0, dense: None, sparse: None, is_dense: false }
    }

    pub fn single(node_count: usize, element: usize) -> (r: Self)
        ensures
            r.wf(),
            r.node_count == node_count,
            r.subset_count == 1,
            !r.is_dense,
            r.sparse is Some,
            r.sparse_seq() =~= seq![element],
            r.members() =~= set![element],
    {
        let mut sparse: Vec<usize> = Vec::new();
        sparse.push(element);
        proof {
            assert(seq![element][0] == element);
            assert(seq![element].contains(element));
            assert forall|x: usize| seq![element].to_set().contains(x) implies x == element by {
                assert(seq![element].contains(x));
            }
            assert(seq![element].to_set() =~= set![element]);
        }
        Self::sparse_counted(node_count, 1, sparse)
    }

    pub fn full(node_count: usize) -> (r: Self)
        ensures
            r.wf(),
            r.node_count == node_count,
            r.subset_count == node_count,
            r.is_dense,
            r.dense is Some,
            r.dense_seq().len() == node_count,
            forall|v: int| 0 <= v < node_count ==> r.dense_seq()[v],
            r.members() =~= Set::new(|v: usize| (v as int) < node_count),
    {
        let mut dense: Vec<bool> = Vec::new();
        let mut i: usize = 0;
        while i < node_count
            invariant
                i <= node_count,
                dense@.len() == i,
                forall|v: int| 0 <= v < i ==> dense@[v],
                count_true(dense@) == i,
            decreases node_count - i,
        {
            proof {
                assert(dense@.push(true).drop_last() =~= dense@);
            }
            dense.push(true);
            i = i + 1;
        }
        Self::dense_counted(node_count, node_count, dense)
    }

    pub fn sparse(node_count: usize, sparse: Vec<usize>) -> (r: Self)
        ensures
            r.wf(),
            r.node_count == node_count,
            r.subset_count == sparse@.len(),
            !r.is_dense,
            r.sparse is Some,
            r.sparse_seq() == sparse@,
            r.members() == sparse@.to_set(),
    {
        let subset_count = sparse.len();
        Self::sparse_counted(node_count, subset_count, sparse)
    }

    /// The caller states the list's length; the contract holds it to that.
    pub fn sparse_counted(node_count: usize, subset_count: usize, sparse: Vec<usize>) -> (r: Self)
        requires
            subset_count == sparse@.len(),
        ensures
            r.wf(),
            r.node_count == node_count,
            r.subset_count == subset_count,
            !r.is_dense,
            r.sparse is Some,
            r.sparse_seq() == sparse@,
            r.members() == sparse@.to_set(),
    {
        Self { node_count, subset_count, dense: None, sparse: Some(sparse), is_dense: false }
    }

    pub fn dense(node_count: usize, dense: Vec<bool>) -> (r: Self)
        ensures
            r.wf(),
            r.node_count == node_count,
            r.subset_count == count_true(dense@),
            r.is_dense,
            r.dense is Some,
            r.dense_seq() == dense@,
            r.members() == Set::new(
                |v: usize| (v as int) < dense@.len() && dense@[v as int],
            ),
    {
        let mut count: usize = 0;
        let mut i: usize = 0;
        while i < dense.len()
            invariant
                i <= dense@.len(),
                count == count_true(dense@.take(i as int)),
                count <= i,
            decreases dense@.len() - i,
        {
            proof {
                assert(dense@.take(i + 1).drop_last() =~= dense@.take(i as int));
                assert(dense@.take(i + 1).last() == dense@[i as int]);
            }
            if dense[i] {
                count = count + 1;
            }
            i = i + 1;
        }
        proof {
            assert(dense@.take(dense@.len() as int) =~= dense@);
        }
        Self::dense_counted(node_count, count, dense)
    }

    /// The caller states the number of set bits; the contract holds it to that.
    pub fn dense_counted(node_count: usize, subset_count: usize, dense: Vec<bool>) -> (r: Self)
        requires
            subset_count == count_true(dense@),
        ensures
            r.wf(),
            r.node_count == node_count,
            r.subset_count == subset_count,
            r.is_dense,
            r.dense is Some,
            r.dense_seq() == dense@,
            r.members() == Set::new(
                |v: usize| (v as int) < dense@.len() && dense@[v as int],
            ),
    {
        Self { node_count, subset_count, dense: Some(dense), sparse: None, is_dense: true }
    }

    pub fn is_empty(&self) -> (r: bool)
        ensures
            r == (self.subset_count == 0),
    {
        self.subset_count == 0
    }

    pub fn is_dense(&self) -> (r: bool)
        ensures
            r == self.is_dense,
    {
        self.is_dense
    }

    pub fn node_count(&self) -> (r: usize)
        ensures
            r == self.node_count,
    {
        self.node_count
    }

    pub fn subset_count(&self) -> (r: usize)
        ensures
            r == self.subset_count,
    {
        self.subset_count
    }

    /// The `index`-th member of the sparse list. Defined only when sparse.
    pub fn node(&self, index: usize) -> (r: usize)
        requires
            self.sparse is Some,
            index < self.sparse_seq().len(),
        ensures
            r == self.sparse_seq()[index as int],
    {
        self.sparse.as_ref().unwrap()[index]
    }

    /// The sparse member list. Defined only when sparse.
    pub fn nodes(&self) -> (r: &Vec<usize>)
        requires
            self.sparse is Some,
        ensures
            r@ == self.sparse_seq(),
    {
        self.sparse.as_ref().unwrap()
    }

    /// A copy of the sparse member list, in order (empty when the subset
    /// holds no list). Defined only on the sparse representation.
    pub fn iter(&self) -> (r: Vec<usize>)
        requires
            !self.is_dense,
        ensures
            self.sparse is Some ==> r@ == self.sparse_seq(),
            self.sparse is None ==> r@ =~= Seq::<usize>::empty(),
    {
        let nodes = match &self.sparse {
            Some(nodes) => nodes,
            None => {
                return Vec::new();
            },
        };
        let mut out: Vec<usize> = Vec::new();
        let mut i: usize = 0;
        while i < nodes.len()
            invariant
                i <= nodes@.len(),
                out@ =~= nodes@.take(i as int),
            decreases nodes@.len() - i,
        {
            out.push(nodes[i]);
            i = i + 1;
        }
        proof {
            assert(nodes@.take(nodes@.len() as int) =~= nodes@);
        }
        out
    }

    /// Consumes the subset and hands out its sparse list (empty when the
    /// subset holds no list). Defined only on the sparse representation.
    pub fn into_iter(self) -> (r: Vec<usize>)
        requires
            !self.is_dense,
        ensures
            self.sparse is Some ==> r@ == self.sparse_seq(),
            self.sparse is None ==> r@ =~= Seq::<usize>::empty(),
    {
        match self.sparse {
            Some(v) => v,
            None => Vec::new(),
        }
    }

    /// Membership test on the dense bitmap. Defined only when dense.
    pub fn contains(&self, value: usize) -> (r: bool)
        requires
            self.dense is Some,
            value < self.dense_seq().len(),
        ensures
            r == self.dense_seq()[value as int],
            r == self.members().contains(value),
    {
        self.dense.as_ref().unwrap()[value]
    }

    /// Switches the active representation to the dense bitmap, building it
    /// from the sparse list if no bitmap is populated. Membership, the count
    /// and the universe size are unchanged.
    pub fn to_dense(&mut self)
        requires
            old(self).wf(),
            old(self).sparse is Some ==> distinct(old(self).sparse_seq()) && (forall|i: int|
                0 <= i < old(self).sparse_seq().len() ==> (
                #[trigger] old(self).sparse_seq()[i] as int) < old(self).node_count),
        ensures
            final(self).wf(),
            final(self).is_dense,
            final(self).dense is Some,
            final(self).node_count == old(self).node_count,
            final(self).subset_count == old(self).subset_count,
            final(self).members() =~= old(self).members(),
            old(self).dense is Some ==> final(self).dense == old(self).dense,
            old(self).dense is None ==> final(self).dense_seq().len() == final(self).node_count,
    {
        if self.dense.is_none() {
            let node_count = self.node_count;
            let mut dense: Vec<bool> = Vec::new();
            let mut i: usize = 0;
            while i < node_count
                invariant
                    i <= node_count,
                    dense@.len() == i,
                    forall|v: int| 0 <= v < i ==> !dense@[v],
                    count_true(dense@) == 0,
                decreases node_count - i,
            {
                proof {
                    assert(dense@.push(false).drop_last() =~= dense@);
                }
                dense.push(false);
                i = i + 1;
            }
            if let Some(sparse) = self.sparse.take() {
                let ghost sp = sparse@;
                let mut j: usize = 0;
                while j < sparse.len()
                    invariant
                        j <= sp.len(),
                        sparse@ == sp,
                        distinct(sp),
                        forall|i: int| 0 <= i < sp.len() ==> (#[trigger] sp[i] as int) < node_count,
                        dense@.len() == node_count,
                        forall|v: int|
                            0 <= v < node_count ==> (dense@[v] <==> sp.take(j as int).contains(
                                v as usize,
                            )),
                        count_true(dense@) == j,
                    decreases sp.len() - j,
                {
                    let v = sparse[j];
                    proof {
                        // A distinct list never re-marks a slot.
                        assert(!sp.take(j as int).contains(v)) by {
                            if sp.take(j as int).contains(v) {
                                let k = choose|k: int|
                                    0 <= k < j && #[trigger] sp.take(j as int)[k] == v;
                                assert(sp[k] == sp[j as int]);
                            }
                        }
                        lemma_count_true_update(dense@, v as int);
                        assert forall|w: int| 0 <= w < node_count implies (dense@.update(
                            v as int,
                            true,
                        )[w] <==> sp.take(j + 1).contains(w as usize)) by {
                            assert(sp.take(j + 1).drop_last() =~= sp.take(j as int));
                            if w == v as int {
                                assert(sp.take(j + 1)[j as int] == v);
                            } else if sp.take(j + 1).contains(w as usize) {
                                let k = choose|k: int|
                                    0 <= k < j + 1 && #[trigger] sp.take(j + 1)[k] == w as usize;
                                assert(k < j);
                                assert(sp.take(j as int)[k] == w as usize);
                            } else if sp.take(j as int).contains(w as usize) {
                                let k = choose|k: int|
                                    0 <= k < j && #[trigger] sp.take(j as int)[k] == w as usize;
                                assert(sp.take(j + 1)[k] == w as usize);
                            }
                        }
                    }
                    dense[v] = true;
                    j = j + 1;
                }
                proof {
                    assert(sp.take(sp.len() as int) =~= sp);
                }
            }
            self.dense = Some(dense);
            proof {
                assert(self.members() =~= old(self).members()) by {
                    assert forall|v: usize| old(self).members().contains(v) implies
                        self.members().contains(v) by {
                        assert(old(self).sparse_seq().contains(v));
                    }
                }
            }
        }
        self.is_dense = true;
    }

    /// Switches the active representation to the sparse list, building it in
    /// ascending id order from the dense bitmap if no list is populated (and
    /// the subset is non-empty). Membership, the count and the universe size
    /// are unchanged.
    pub fn to_sparse(&mut self)
        requires
            old(self).wf(),
        ensures
            final(self).wf(),
            !final(self).is_dense,
            final(self).node_count == old(self).node_count,
            final(self).subset_count == old(self).subset_count,
            final(self).members() =~= old(self).members(),
            old(self).sparse is Some ==> final(self).sparse == old(self).sparse,
            final(self).sparse is Some,
            old(self).dense is Some ==> final(self).sparse_seq() =~= sparse_of_dense(
                old(self).dense_seq(),
            ),
            old(self).sparse is None && old(self).dense is None ==> final(self).sparse_seq()
                =~= Seq::<usize>::empty(),
    {
        if self.sparse.is_none() {
            let mut out: Vec<usize> = Vec::new();
            if let Some(dense) = self.dense.take() {
                let ghost dn = dense@;
                let mut i: usize = 0;
                while i < dense.len()
                    invariant
                        i <= dn.len(),
                        dense@ == dn,
                        out@ =~= sparse_of_dense(dn.take(i as int)),
                    decreases dn.len() - i,
                {
                    proof {
                        assert(dn.take(i + 1).drop_last() =~= dn.take(i as int));
                        assert(dn.take(i + 1).last() == dn[i as int]);
                    }
                    if dense[i] {
                        out.push(i);
                    }
                    i = i + 1;
                }
                proof {
                    assert(dn.take(dn.len() as int) =~= dn);
                    lemma_sparse_of_dense(dn);
                    assert(out@.to_set() =~= Set::new(
                        |v: usize| (v as int) < dn.len() && dn[v as int],
                    ));
                }
            }
            self.sparse = Some(out);
            proof {
                if old(self).dense is None {
                    assert(self.members() =~= old(self).members());
                }
            }
        }
        self.is_dense = false;
    }
}

impl Default for NodeSubset {
    /// The empty subset over an empty universe.
    fn default() -> (r: Self)
        ensures
            r.wf(),
            r.node_count == 0,
            r.subset_count == 0,
            !r.is_dense,
            r.members() =~= Set::<usize>::empty(),
    {
        Self { node_count: 0, subset_count: 0, dense: None, sparse: None, is_dense: false }
    }
}

/// A bitmap with no set bit has count zero, and the other way round.
pub proof fn lemma_count_true_zero(s: Seq<bool>)
    requires
        count_true(s) == 0,
    ensures
        forall|i: int| 0 <= i < s.len() ==> !s[i],
    decreases s.len(),
{
    if s.len() > 0 {
        lemma_count_true_zero(s.drop_last());
        assert forall|i: int| 0 <= i < s.len() implies !s[i] by {
            if i < s.len() - 1 {
                assert(!s.drop_last()[i]);
            }
        }
    }
}

/// A well-formed subset with a zero count has no members.
pub proof fn lemma_empty_members(s: NodeSubset)
    requires
        s.wf(),
        s.subset_count == 0,
    ensures
        s.members() =~= Set::<usize>::empty(),
{
    if s.dense is Some {
        lemma_count_true_zero(s.dense_seq());
    } else if s.sparse is Some {
        assert(s.sparse_seq().len() == 0);
        assert forall|v: usize| !(#[trigger] s.sparse_seq().to_set().contains(v)) by {
            if s.sparse_seq().contains(v) {
                let i = choose|i: int| 0 <= i < s.sparse_seq().len() && s.sparse_seq()[i] == v;
            }
        }
    }
}

/// The recorded cardinality equals the number of members, whichever
/// representation is active (for a sparse list, one free of duplicates).
pub proof fn lemma_subset_count_is_cardinality(s: NodeSubset)
    requires
        s.wf(),
        s.sparse is Some ==> distinct(s.sparse_seq()),
    ensures
        s.subset_count == s.members().len(),
{
    if s.dense is Some {
        let d = s.dense_seq();
        vstd::std_specs::vec::axiom_spec_len(&s.dense->0);
        lemma_sparse_of_dense(d);
        let sp = sparse_of_dense(d);
        sp.unique_seq_to_set();
        assert(sp.to_set() =~= s.members());
    } else if s.sparse is Some {
        s.sparse_seq().unique_seq_to_set();
    } else {
        assert(s.members() =~= Set::<usize>::empty());
    }
}

} // verus!
