//! Structural cleanup of the raw tree.
//!
//! Two label-splitting passes turn taxon annotations into per-taxon leaf
//! children: first for labelled nodes that still have children, then for
//! labelled leaves carrying more than one taxon.  The `internal` flag keeps
//! or clears the split node's own annotation.  A final compaction pass
//! repeatedly splices out every unlabelled node with exactly one child,
//! joining the character chains of its two edges, until no such node
//! remains.

use vstd::prelude::*;
use crate::tree::{
    all_live, lemma_empty_to_set, lemma_path_chars_except, lemma_path_chars_extend,
    lemma_path_chars_prefix, path_chars, relocated, tree_bounded, tree_wf, PhyloNode, PhyloTree,
};

verus! {

/// Node `n` has at least one live child.
pub open spec fn has_live_child(t: Seq<PhyloNode>, n: int) -> bool {
    exists|k: int| 1 <= k < t.len() && (#[trigger] t[k]).parent == n && t[k].live
}

/// A node that one of the splitting passes rewrites: non-root, live and
/// labelled; an internal node in the first pass, a multi-taxon leaf in the
/// second (`leaf_mode`).
pub open spec fn split_cand(t: Seq<PhyloNode>, n: int, leaf_mode: bool) -> bool {
    &&& 1 <= n < t.len()
    &&& t[n].live
    &&& if leaf_mode {
        t[n].taxa@.len() > 1 && !has_live_child(t, n)
    } else {
        t[n].taxa@.len() > 0 && has_live_child(t, n)
    }
}

/// Whether node `n` has a live child among the nodes below `upto`, counted.
pub open spec fn lcc_upto(t: Seq<PhyloNode>, n: int, upto: int) -> nat
    decreases upto,
{
    if upto <= 1 {
        0
    } else {
        lcc_upto(t, n, upto - 1) + (if t[upto - 1].parent == n && t[upto - 1].live {
            1nat
        } else {
            0nat
        })
    }
}

/// The number of live children of node `n`.
pub open spec fn live_child_count(t: Seq<PhyloNode>, n: int) -> nat {
    lcc_upto(t, n, t.len() as int)
}

/// A node that compaction splices out: non-root, live, unlabelled, with
/// exactly one live child.
pub open spec fn splice_cand(t: Seq<PhyloNode>, n: int) -> bool {
    &&& 1 <= n < t.len()
    &&& t[n].live
    &&& t[n].taxa@.len() == 0
    &&& live_child_count(t, n) == 1
}

/// Among the nodes from `lo` on, some leaf carries exactly the taxon `x`
/// below parent `n2`.
pub open spec fn leaf_for(t: Seq<PhyloNode>, lo: int, n2: int, x: usize) -> bool {
    exists|k: int|
        lo <= k < t.len() && (#[trigger] t[k]).parent == n2 && t[k].taxa@.len() == 1
            && t[k].taxa@[0] == x
}

proof fn lemma_leaf_for_extend(t1: Seq<PhyloNode>, t2: Seq<PhyloNode>, lo: int, n2: int, x: usize)
    requires
        leaf_for(t1, lo, n2, x),
        t1.len() <= t2.len(),
        forall|k: int| lo <= k < t1.len() ==> #[trigger] t2[k] == t1[k],
    ensures
        leaf_for(t2, lo, n2, x),
{
    let k = choose|k: int|
        lo <= k < t1.len() && (#[trigger] t1[k]).parent == n2 && t1[k].taxa@.len() == 1
            && t1[k].taxa@[0] == x;
    assert(t2[k].parent == n2 && t2[k].taxa@.len() == 1 && t2[k].taxa@[0] == x);
}

/// Number of live nodes below `upto`.
pub open spec fn live_count_upto(t: Seq<PhyloNode>, upto: int) -> nat
    decreases upto,
{
    if upto <= 0 {
        0
    } else {
        live_count_upto(t, upto - 1) + (if t[upto - 1].live {
            1nat
        } else {
            0nat
        })
    }
}

proof fn lemma_lcc_single(t: Seq<PhyloNode>, n: int, k: int, upto: int)
    requires
        1 <= k < upto <= t.len(),
        t[k].parent == n,
        t[k].live,
    ensures
        lcc_upto(t, n, upto) >= 1,
    decreases upto,
{
    if k < upto - 1 {
        lemma_lcc_single(t, n, k, upto - 1);
    }
}

proof fn lemma_lcc_pair(t: Seq<PhyloNode>, n: int, k1: int, k2: int, upto: int)
    requires
        1 <= k1 < k2 < upto <= t.len(),
        t[k1].parent == n && t[k1].live,
        t[k2].parent == n && t[k2].live,
    ensures
        lcc_upto(t, n, upto) >= 2,
    decreases upto,
{
    if k2 == upto - 1 {
        lemma_lcc_single(t, n, k1, upto - 1);
    } else {
        lemma_lcc_pair(t, n, k1, k2, upto - 1);
    }
}

/// With exactly one live child counted, any two live children coincide.
proof fn lemma_lcc_one_unique(t: Seq<PhyloNode>, n: int, c: int, k: int)
    requires
        live_child_count(t, n) == 1,
        1 <= c < t.len() && t[c].parent == n && t[c].live,
        1 <= k < t.len() && t[k].parent == n && t[k].live,
    ensures
        c == k,
{
    if c < k {
        lemma_lcc_pair(t, n, c, k, t.len() as int);
    } else if k < c {
        lemma_lcc_pair(t, n, k, c, t.len() as int);
    }
}

proof fn lemma_live_count_strict(t1: Seq<PhyloNode>, t2: Seq<PhyloNode>, n: int, upto: int)
    requires
        t1.len() == t2.len(),
        forall|k: int| 0 <= k < t1.len() && (#[trigger] t2[k]).live ==> t1[k].live,
        0 <= n < upto <= t1.len(),
        t1[n].live,
        !t2[n].live,
    ensures
        live_count_upto(t2, upto) < live_count_upto(t1, upto),
    decreases upto,
{
    if n < upto - 1 {
        lemma_live_count_strict(t1, t2, n, upto - 1);
    } else {
        lemma_live_count_le(t1, t2, upto - 1);
    }
}

proof fn lemma_live_count_le(t1: Seq<PhyloNode>, t2: Seq<PhyloNode>, upto: int)
    requires
        t1.len() == t2.len(),
        forall|k: int| 0 <= k < t1.len() && (#[trigger] t2[k]).live ==> t1[k].live,
        upto <= t1.len(),
    ensures
        live_count_upto(t2, upto) <= live_count_upto(t1, upto),
    decreases upto,
{
    if upto > 0 {
        lemma_live_count_le(t1, t2, upto - 1);
    }
}

/// Whether node `n` has a live child.
fn has_child(t: &PhyloTree, n: usize) -> (r: bool)
    ensures
        r == has_live_child(t.nodes@, n as int),
{
    let mut k: usize = 1;
    while k < t.nodes.len()
        invariant
            k >= 1,
            forall|k2: int| 1 <= k2 < k
                ==> !((#[trigger] t.nodes@[k2]).parent == n && t.nodes@[k2].live),
        decreases t.nodes.len() - k,
    {
        if t.nodes[k].parent == n && t.nodes[k].live {
            return true;
        }
        k = k + 1;
    }
    false
}

/// Count the live children of node `n`, also reporting the first one.
fn count_children(t: &PhyloTree, n: usize) -> (res: (usize, usize))
    requires
        t.nodes.len() > 0,
    ensures
        res.0 == live_child_count(t.nodes@, n as int),
        res.0 > 0 ==> 1 <= res.1 < t.nodes@.len() && t.nodes@[res.1 as int].parent == n
            && t.nodes@[res.1 as int].live,
{
    let mut count: usize = 0;
    let mut first: usize = 0;
    let mut k: usize = 1;
    while k < t.nodes.len()
        invariant
            k >= 1,
            k <= t.nodes.len(),
            count == lcc_upto(t.nodes@, n as int, k as int),
            count <= k,
            count > 0 ==> 1 <= first < k && t.nodes@[first as int].parent == n
                && t.nodes@[first as int].live,
        decreases t.nodes.len() - k,
    {
        if t.nodes[k].parent == n && t.nodes[k].live {
            if count == 0 {
                first = k;
            }
            count = count + 1;
        }
        k = k + 1;
    }
    (count, first)
}

/// Turn every taxon of node `n` into a fresh live leaf child attached by
/// an unlabelled edge; under `internal = false` clear the node's own label.
#[verifier::rlimit(50)]
fn split_node(t: &mut PhyloTree, n: usize, internal: bool)
    requires
        tree_wf(old(t).nodes@),
        1 <= n < old(t).nodes@.len(),
        old(t).nodes@[n as int].live,
    ensures
        tree_wf(final(t).nodes@),
        final(t).nodes@.len() == old(t).nodes@.len() + old(t).nodes@[n as int].taxa@.len(),
        forall|k: int| 0 <= k < old(t).nodes@.len() && k != n
            ==> #[trigger] final(t).nodes@[k] == old(t).nodes@[k],
        final(t).nodes@[n as int].parent == old(t).nodes@[n as int].parent,
        final(t).nodes@[n as int].chars@ == old(t).nodes@[n as int].chars@,
        final(t).nodes@[n as int].live == old(t).nodes@[n as int].live,
        final(t).nodes@[n as int].taxa@ == (if internal {
            old(t).nodes@[n as int].taxa@
        } else {
            Seq::<usize>::empty()
        }),
        forall|k: int| old(t).nodes@.len() <= k < final(t).nodes@.len()
            ==> (#[trigger] final(t).nodes@[k]).parent == n
                && final(t).nodes@[k].live
                && final(t).nodes@[k].chars@.len() == 0
                && final(t).nodes@[k].taxa@.len() == 1
                && final(t).nodes@[k].taxa@[0]
                    == old(t).nodes@[n as int].taxa@[k - old(t).nodes@.len()],
        forall|k: int| 0 <= k < old(t).nodes@.len()
            ==> #[trigger] path_chars(final(t).nodes@, k) == path_chars(old(t).nodes@, k),
        forall|k: int| old(t).nodes@.len() <= k < final(t).nodes@.len()
            ==> #[trigger] path_chars(final(t).nodes@, k)
                == path_chars(old(t).nodes@, n as int),
{
    let ghost tn = old(t).nodes@;
    let cnt = t.nodes[n].taxa.len();
    let mut idx: usize = 0;
    while idx < cnt
        invariant
            tree_wf(tn),
            1 <= n < tn.len(),
            tn[n as int].live,
            cnt == tn[n as int].taxa@.len(),
            idx <= cnt,
            t.nodes@.len() == tn.len() + idx,
            forall|k: int| 0 <= k < tn.len() ==> #[trigger] t.nodes@[k] == tn[k],
            forall|k: int| tn.len() <= k < t.nodes@.len()
                ==> (#[trigger] t.nodes@[k]).parent == n
                    && t.nodes@[k].live
                    && t.nodes@[k].chars@.len() == 0
                    && t.nodes@[k].taxa@.len() == 1
                    && t.nodes@[k].taxa@[0] == tn[n as int].taxa@[k - tn.len()],
            tree_wf(t.nodes@),
        decreases cnt - idx,
    {
        let x = t.nodes[n].taxa[idx];
        let mut tv: Vec<usize> = Vec::new();
        tv.push(x);
        let leaf = PhyloNode { parent: n, chars: Vec::new(), taxa: tv, live: true };
        t.nodes.push(leaf);
        idx = idx + 1;
    }
    if !internal {
        t.nodes[n].taxa = Vec::new();
    }
    proof {
        assert forall|k: int| 0 <= k < tn.len() implies
            #[trigger] path_chars(t.nodes@, k) == path_chars(tn, k) by {
            lemma_path_chars_extend(tn, t.nodes@, k);
        }
        assert forall|k: int| tn.len() <= k < t.nodes@.len() implies
            #[trigger] path_chars(t.nodes@, k) == path_chars(tn, n as int) by {
            lemma_empty_to_set(t.nodes@[k].chars@);
            assert(path_chars(t.nodes@, k)
                == path_chars(t.nodes@, n as int).union(t.nodes@[k].chars@.to_set()));
            assert(path_chars(t.nodes@, k) =~= path_chars(t.nodes@, n as int));
        }
    }
}

/// The facts established by a splitting pass imply that every taxon kept
/// its root path: it either stayed where it was or moved to a fresh leaf.
proof fn lemma_split_relocated(t0: Seq<PhyloNode>, t2: Seq<PhyloNode>, internal: bool, leaf_mode: bool)
    requires
        t0.len() <= t2.len(),
        forall|k: int| 0 <= k < t0.len()
            ==> (#[trigger] t2[k]).live == t0[k].live
                && t2[k].taxa@ == (
                    if split_cand(t0, k, leaf_mode) && !internal {
                        Seq::<usize>::empty()
                    } else {
                        t0[k].taxa@
                    }),
        forall|k: int| t0.len() <= k < t2.len() ==> (#[trigger] t2[k]).live,
        forall|n2: int, idx: int|
            #![trigger t0[n2].taxa@[idx]]
            split_cand(t0, n2, leaf_mode) && 0 <= idx < t0[n2].taxa@.len()
            ==> leaf_for(t2, t0.len() as int, n2, t0[n2].taxa@[idx]),
        forall|k: int| 0 <= k < t0.len()
            ==> #[trigger] path_chars(t2, k) == path_chars(t0, k),
        forall|k: int| t0.len() <= k < t2.len()
            ==> #[trigger] path_chars(t2, k) == path_chars(t0, t2[k].parent as int),
        forall|k: int| t0.len() <= k < t2.len() ==> 0 <= (#[trigger] t2[k]).parent < t0.len(),
    ensures
        relocated(t0, t2),
{
    assert forall|n2: int, x: usize|
        0 <= n2 < t0.len() && t0[n2].live && (#[trigger] t0[n2].taxa@.contains(x))
        implies exists|k2: int|
            0 <= k2 < t2.len() && (#[trigger] t2[k2].live) && t2[k2].taxa@.contains(x)
                && path_chars(t2, k2) == path_chars(t0, n2) by {
        if split_cand(t0, n2, leaf_mode) && !internal {
            let idx = choose|idx: int|
                0 <= idx < t0[n2].taxa@.len() && t0[n2].taxa@[idx] == x;
            assert(leaf_for(t2, t0.len() as int, n2, t0[n2].taxa@[idx]));
            let k = choose|k: int|
                t0.len() as int <= k < t2.len()
                    && (#[trigger] t2[k]).parent == n2
                    && t2[k].taxa@.len() == 1
                    && t2[k].taxa@[0] == t0[n2].taxa@[idx];
            assert(t2[k].taxa@.contains(x));
            assert(t2[k].live);
            assert(path_chars(t2, k) == path_chars(t0, n2));
        } else {
            assert(t2[n2].taxa@.contains(x));
            assert(t2[n2].live);
            assert(path_chars(t2, n2) == path_chars(t0, n2));
        }
    }
}

/// One label-splitting pass.  Every candidate node's taxa become fresh leaf
/// children hanging from unlabelled edges; under `internal = false` the
/// candidate's own label is cleared, otherwise it is kept.
#[verifier::rlimit(100)]
pub fn split_labels(t: &mut PhyloTree, internal: bool, leaf_mode: bool)
    requires
        tree_wf(old(t).nodes@),
    ensures
        tree_wf(final(t).nodes@),
        final(t).nodes@.len() >= old(t).nodes@.len(),
        // old nodes keep their place, edge and liveness; a candidate's label
        // is cleared exactly under `internal = false`
        forall|k: int| 0 <= k < old(t).nodes@.len()
            ==> (#[trigger] final(t).nodes@[k]).parent == old(t).nodes@[k].parent
                && final(t).nodes@[k].chars@ == old(t).nodes@[k].chars@
                && final(t).nodes@[k].live == old(t).nodes@[k].live
                && final(t).nodes@[k].taxa@ == (
                    if split_cand(old(t).nodes@, k, leaf_mode) && !internal {
                        Seq::<usize>::empty()
                    } else {
                        old(t).nodes@[k].taxa@
                    }),
        // every appended node is a live leaf holding one taxon of its
        // candidate parent
        forall|k: int| old(t).nodes@.len() <= k < final(t).nodes@.len()
            ==> (#[trigger] final(t).nodes@[k]).live
                && final(t).nodes@[k].chars@.len() == 0
                && final(t).nodes@[k].taxa@.len() == 1
                && split_cand(old(t).nodes@, final(t).nodes@[k].parent as int, leaf_mode)
                && old(t).nodes@[final(t).nodes@[k].parent as int].taxa@.contains(
                    final(t).nodes@[k].taxa@[0]),
        // each taxon of each candidate gets its leaf
        forall|n2: int, idx: int|
            #![trigger old(t).nodes@[n2].taxa@[idx]]
            split_cand(old(t).nodes@, n2, leaf_mode)
                && 0 <= idx < old(t).nodes@[n2].taxa@.len()
            ==> leaf_for(final(t).nodes@, old(t).nodes@.len() as int, n2,
                    old(t).nodes@[n2].taxa@[idx]),
        // root paths survive: old nodes keep theirs, new leaves inherit the
        // parent's
        forall|k: int| 0 <= k < old(t).nodes@.len()
            ==> #[trigger] path_chars(final(t).nodes@, k) == path_chars(old(t).nodes@, k),
        forall|k: int| old(t).nodes@.len() <= k < final(t).nodes@.len()
            ==> #[trigger] path_chars(final(t).nodes@, k)
                == path_chars(old(t).nodes@, final(t).nodes@[k].parent as int),
        relocated(old(t).nodes@, final(t).nodes@),
        all_live(old(t).nodes@) ==> all_live(final(t).nodes@),
        forall|rr: int, cc: int| tree_bounded(old(t).nodes@, rr, cc)
            ==> #[trigger] tree_bounded(final(t).nodes@, rr, cc),
{
    let ghost t0 = old(t).nodes@;
    let len0 = t.nodes.len();
    let mut n: usize = 1;
    while n < len0
        invariant
            tree_wf(t0),
            tree_wf(t.nodes@),
            len0 == t0.len(),
            1 <= n <= len0,
            t.nodes@.len() >= len0,
            forall|k: int| 0 <= k < len0
                ==> (#[trigger] t.nodes@[k]).parent == t0[k].parent
                    && t.nodes@[k].chars@ == t0[k].chars@
                    && t.nodes@[k].live == t0[k].live
                    && t.nodes@[k].taxa@ == (
                        if k < n && split_cand(t0, k, leaf_mode) && !internal {
                            Seq::<usize>::empty()
                        } else {
                            t0[k].taxa@
                        }),
            forall|k: int| len0 <= k < t.nodes@.len()
                ==> (#[trigger] t.nodes@[k]).live
                    && t.nodes@[k].chars@.len() == 0
                    && t.nodes@[k].taxa@.len() == 1
                    && t.nodes@[k].parent < n
                    && split_cand(t0, t.nodes@[k].parent as int, leaf_mode)
                    && t0[t.nodes@[k].parent as int].taxa@.contains(t.nodes@[k].taxa@[0]),
            forall|n2: int, idx: int|
                #![trigger t0[n2].taxa@[idx]]
                0 <= n2 < n && split_cand(t0, n2, leaf_mode)
                    && 0 <= idx < t0[n2].taxa@.len()
                ==> leaf_for(t.nodes@, len0 as int, n2, t0[n2].taxa@[idx]),
            forall|k: int| 0 <= k < len0
                ==> #[trigger] path_chars(t.nodes@, k) == path_chars(t0, k),
            forall|k: int| len0 <= k < t.nodes@.len()
                ==> #[trigger] path_chars(t.nodes@, k)
                    == path_chars(t0, t.nodes@[k].parent as int),
        decreases len0 - n,
    {
        let is_labelled = if leaf_mode {
            t.nodes[n].taxa.len() > 1
        } else {
            t.nodes[n].taxa.len() > 0
        };
        let child = has_child(t, n);
        let is_cand = t.nodes[n].live && is_labelled && (if leaf_mode { !child } else { child });
        proof {
            // the candidate test on the current arena agrees with the one on
            // the arena at entry: appended leaves hang below earlier nodes
            if has_live_child(t.nodes@, n as int) {
                let k = choose|k: int| 1 <= k < t.nodes@.len()
                    && (#[trigger] t.nodes@[k]).parent == n as int && t.nodes@[k].live;
                if k < len0 {
                    assert(has_live_child(t0, n as int));
                } else {
                    assert(t.nodes@[k].parent < n);
                    assert(false);
                }
            }
            if has_live_child(t0, n as int) {
                let k = choose|k: int| 1 <= k < t0.len()
                    && (#[trigger] t0[k]).parent == n as int && t0[k].live;
                assert(t.nodes@[k].parent == n as int && t.nodes@[k].live);
                assert(has_live_child(t.nodes@, n as int));
            }
            assert(is_cand == split_cand(t0, n as int, leaf_mode));
        }
        if is_cand {
            let ghost tn = t.nodes@;
            split_node(t, n, internal);
            proof {
                assert(tn[n as int].taxa@ == t0[n as int].taxa@);
                assert forall|k: int| len0 <= k < t.nodes@.len() implies
                    (#[trigger] t.nodes@[k]).live
                        && t.nodes@[k].chars@.len() == 0
                        && t.nodes@[k].taxa@.len() == 1
                        && t.nodes@[k].parent < n + 1
                        && split_cand(t0, t.nodes@[k].parent as int, leaf_mode)
                        && t0[t.nodes@[k].parent as int].taxa@.contains(
                            t.nodes@[k].taxa@[0]) by {
                    if k < tn.len() {
                        assert(t.nodes@[k] == tn[k]);
                    } else {
                        assert(t.nodes@[k].parent == n);
                        assert(t.nodes@[k].taxa@[0] == tn[n as int].taxa@[k - tn.len()]);
                        assert(t0[n as int].taxa@.contains(t.nodes@[k].taxa@[0]));
                    }
                }
                assert forall|n2: int, idx2: int|
                    #![trigger t0[n2].taxa@[idx2]]
                    0 <= n2 < n + 1 && split_cand(t0, n2, leaf_mode)
                        && 0 <= idx2 < t0[n2].taxa@.len()
                    implies leaf_for(t.nodes@, len0 as int, n2, t0[n2].taxa@[idx2]) by {
                    if n2 == n as int {
                        let k = tn.len() + idx2;
                        assert(t.nodes@[k].parent == n2
                            && t.nodes@[k].taxa@.len() == 1
                            && t.nodes@[k].taxa@[0] == t0[n2].taxa@[idx2]);
                    } else {
                        lemma_leaf_for_extend(tn, t.nodes@, len0 as int, n2,
                            t0[n2].taxa@[idx2]);
                    }
                }
                assert forall|k: int| 0 <= k < len0 implies
                    #[trigger] path_chars(t.nodes@, k) == path_chars(t0, k) by {
                    assert(path_chars(t.nodes@, k) == path_chars(tn, k));
                }
                assert forall|k: int| len0 <= k < t.nodes@.len() implies
                    #[trigger] path_chars(t.nodes@, k)
                        == path_chars(t0, t.nodes@[k].parent as int) by {
                    if k < tn.len() {
                        assert(t.nodes@[k] == tn[k]);
                        assert(path_chars(t.nodes@, k) == path_chars(tn, k));
                    } else {
                        assert(path_chars(t.nodes@, k) == path_chars(tn, n as int));
                        assert(path_chars(tn, n as int) == path_chars(t0, n as int));
                    }
                }
            }
        }
        n = n + 1;
    }
    proof {
        lemma_split_relocated(t0, t.nodes@, internal, leaf_mode);
        if all_live(t0) {
            assert forall|k: int| 0 <= k < t.nodes@.len() implies
                (#[trigger] t.nodes@[k]).live by {
                if k < len0 {
                    assert(t0[k].live);
                }
            }
        }
        assert forall|rr: int, cc: int| tree_bounded(t0, rr, cc) implies
            #[trigger] tree_bounded(t.nodes@, rr, cc) by {
            assert forall|n3: int, k3: int|
                #![trigger t.nodes@[n3].chars@[k3]]
                0 <= n3 < t.nodes@.len() && 0 <= k3 < t.nodes@[n3].chars@.len() implies
                t.nodes@[n3].chars@[k3] < cc by {
                assert(n3 < len0);
                assert(t.nodes@[n3].chars@ == t0[n3].chars@);
            }
            assert forall|n3: int, k3: int|
                #![trigger t.nodes@[n3].taxa@[k3]]
                0 <= n3 < t.nodes@.len() && 0 <= k3 < t.nodes@[n3].taxa@.len() implies
                t.nodes@[n3].taxa@[k3] < rr by {
                if n3 < len0 {
                    if !(split_cand(t0, n3, leaf_mode) && !internal) {
                        assert(t.nodes@[n3].taxa@ == t0[n3].taxa@);
                    }
                } else {
                    let pr = t.nodes@[n3].parent as int;
                    assert(t0[pr].taxa@.contains(t.nodes@[n3].taxa@[k3]));
                    let q = choose|q: int| 0 <= q < t0[pr].taxa@.len()
                        && t0[pr].taxa@[q] == t.nodes@[n3].taxa@[k3];
                }
            }
        }
    }
}

/// Find a node that compaction can splice out, together with its only
/// live child.
fn find_splice(t: &PhyloTree) -> (res: Option<(usize, usize)>)
    requires
        t.nodes.len() > 0,
    ensures
        match res {
            Some(pair) => splice_cand(t.nodes@, pair.0 as int)
                && 1 <= pair.1 < t.nodes@.len()
                && t.nodes@[pair.1 as int].parent == pair.0
                && t.nodes@[pair.1 as int].live,
            None => forall|n: int| !splice_cand(t.nodes@, n),
        },
{
    let mut n: usize = 1;
    while n < t.nodes.len()
        invariant
            n >= 1,
            forall|n2: int| 0 <= n2 < n ==> !splice_cand(t.nodes@, n2),
        decreases t.nodes.len() - n,
    {
        if t.nodes[n].live && t.nodes[n].taxa.len() == 0 {
            let (count, child) = count_children(t, n);
            if count == 1 {
                return Some((n, child));
            }
        }
        n = n + 1;
    }
    None
}

/// Splice out every unlabelled single-child node, joining the character
/// chains of its incoming and outgoing edges, until none remains.  An
/// already compacted tree comes back unchanged, so running the pass twice
/// changes nothing more than running it once.
#[verifier::rlimit(100)]
pub fn compact_tree(t: &mut PhyloTree)
    requires
        tree_wf(old(t).nodes@),
    ensures
        tree_wf(final(t).nodes@),
        final(t).nodes@.len() == old(t).nodes@.len(),
        forall|n: int| 0 <= n < old(t).nodes@.len()
            ==> (#[trigger] final(t).nodes@[n]).taxa@ == old(t).nodes@[n].taxa@,
        forall|n: int| 0 <= n < old(t).nodes@.len() && (#[trigger] final(t).nodes@[n]).live
            ==> old(t).nodes@[n].live,
        forall|n: int| 0 <= n < old(t).nodes@.len() && old(t).nodes@[n].live
            && !(#[trigger] final(t).nodes@[n]).live
            ==> old(t).nodes@[n].taxa@.len() == 0,
        forall|n: int| 0 <= n < old(t).nodes@.len() && (#[trigger] final(t).nodes@[n]).live
            ==> path_chars(final(t).nodes@, n) == path_chars(old(t).nodes@, n),
        forall|n: int| !splice_cand(final(t).nodes@, n),
        (forall|n: int| !splice_cand(old(t).nodes@, n)) ==> final(t).nodes@ == old(t).nodes@,
        forall|rr: int, cc: int| tree_bounded(old(t).nodes@, rr, cc)
            ==> #[trigger] tree_bounded(final(t).nodes@, rr, cc),
{
    let ghost t0 = old(t).nodes@;
    loop
        invariant
            t0 == old(t).nodes@,
            tree_wf(t0),
            tree_wf(t.nodes@),
            t.nodes@.len() == t0.len(),
            forall|n: int| 0 <= n < t0.len()
                ==> (#[trigger] t.nodes@[n]).taxa@ == t0[n].taxa@,
            forall|n: int| 0 <= n < t0.len() && (#[trigger] t.nodes@[n]).live ==> t0[n].live,
            forall|n: int| 0 <= n < t0.len() && t0[n].live && !(#[trigger] t.nodes@[n]).live
                ==> t0[n].taxa@.len() == 0,
            forall|n: int| 0 <= n < t0.len() && (#[trigger] t.nodes@[n]).live
                ==> path_chars(t.nodes@, n) == path_chars(t0, n),
            (forall|n: int| !splice_cand(t0, n)) ==> t.nodes@ == t0,
            forall|rr: int, cc: int| tree_bounded(t0, rr, cc)
                ==> #[trigger] tree_bounded(t.nodes@, rr, cc),
        decreases live_count_upto(t.nodes@, t.nodes@.len() as int),
    {
        match find_splice(t) {
            None => {
                return ;
            },
            Some(pair) => {
                let (n, c) = pair;
                proof {
                    if forall|n2: int| !splice_cand(t0, n2) {
                        assert(t.nodes@ == t0);
                        assert(splice_cand(t0, n as int));
                        assert(false);
                    }
                }
                let ghost tp = t.nodes@;
                let pn = t.nodes[n].parent;
                // join the two character chains
                let mut nc: Vec<usize> = Vec::new();
                let mut q: usize = 0;
                while q < t.nodes[n].chars.len()
                    invariant
                        n < t.nodes@.len(),
                        t.nodes@ == tp,
                        q <= tp[n as int].chars@.len(),
                        nc@ == tp[n as int].chars@.subrange(0, q as int),
                    decreases t.nodes@[n as int].chars@.len() - q,
                {
                    let x = t.nodes[n].chars[q];
                    nc.push(x);
                    q = q + 1;
                    proof {
                        assert(nc@ =~= tp[n as int].chars@.subrange(0, q as int));
                    }
                }
                let mut q2: usize = 0;
                while q2 < t.nodes[c].chars.len()
                    invariant
                        n < t.nodes@.len(),
                        c < t.nodes@.len(),
                        t.nodes@ == tp,
                        q2 <= tp[c as int].chars@.len(),
                        nc@ == tp[n as int].chars@
                            + tp[c as int].chars@.subrange(0, q2 as int),
                    decreases t.nodes@[c as int].chars@.len() - q2,
                {
                    let x = t.nodes[c].chars[q2];
                    nc.push(x);
                    q2 = q2 + 1;
                    proof {
                        assert(nc@ =~= tp[n as int].chars@
                            + tp[c as int].chars@.subrange(0, q2 as int));
                    }
                }
                proof {
                    assert(tp[n as int].chars@.subrange(0, tp[n as int].chars@.len() as int)
                        =~= tp[n as int].chars@);
                    assert(tp[c as int].chars@.subrange(0, tp[c as int].chars@.len() as int)
                        =~= tp[c as int].chars@);
                    assert(nc@ == tp[n as int].chars@ + tp[c as int].chars@);
                }
                t.nodes[c].parent = pn;
                t.nodes[c].chars = nc;
                t.nodes[n].live = false;
                proof {
                    lemma_splice_ok(tp, t.nodes@, n as int, c as int);
                    assert forall|n2: int|
                        0 <= n2 < t0.len() && (#[trigger] t.nodes@[n2]).live implies
                        path_chars(t.nodes@, n2) == path_chars(t0, n2) by {
                        assert(tp[n2].live);
                        assert(path_chars(t.nodes@, n2) == path_chars(tp, n2));
                    }
                    lemma_live_count_strict(tp, t.nodes@, n as int, tp.len() as int);
                    assert forall|rr: int, cc2: int| tree_bounded(t0, rr, cc2) implies
                        #[trigger] tree_bounded(t.nodes@, rr, cc2) by {
                        assert(tree_bounded(tp, rr, cc2));
                        assert forall|n3: int, k3: int|
                            #![trigger t.nodes@[n3].chars@[k3]]
                            0 <= n3 < t.nodes@.len()
                                && 0 <= k3 < t.nodes@[n3].chars@.len() implies
                            t.nodes@[n3].chars@[k3] < cc2 by {
                            if n3 == c as int {
                                assert(t.nodes@[n3].chars@
                                    == tp[n as int].chars@ + tp[c as int].chars@);
                                if k3 < tp[n as int].chars@.len() {
                                    assert(t.nodes@[n3].chars@[k3]
                                        == tp[n as int].chars@[k3]);
                                } else {
                                    assert(t.nodes@[n3].chars@[k3] == tp[c as int].chars@[
                                        k3 - tp[n as int].chars@.len()]);
                                }
                            } else {
                                assert(t.nodes@[n3].chars@ == tp[n3].chars@);
                            }
                        }
                        assert forall|n3: int, k3: int|
                            #![trigger t.nodes@[n3].taxa@[k3]]
                            0 <= n3 < t.nodes@.len()
                                && 0 <= k3 < t.nodes@[n3].taxa@.len() implies
                            t.nodes@[n3].taxa@[k3] < rr by {
                            assert(t.nodes@[n3].taxa@ == tp[n3].taxa@);
                        }
                    }
                }
            },
        }
    }
}

/// After splicing the single child `c` of the unlabelled node `n` onto
/// `n`'s parent, the arena is still a well-formed tree and every live
/// node's root path is unchanged.
#[verifier::rlimit(50)]
proof fn lemma_splice_ok(tp: Seq<PhyloNode>, t2: Seq<PhyloNode>, n: int, c: int)
    requires
        tree_wf(tp),
        splice_cand(tp, n),
        1 <= c < tp.len(),
        tp[c].parent == n,
        tp[c].live,
        t2.len() == tp.len(),
        forall|k: int| 0 <= k < tp.len() && k != n && k != c ==> #[trigger] t2[k] == tp[k],
        t2[n].parent == tp[n].parent,
        t2[n].chars@ == tp[n].chars@,
        t2[n].taxa@ == tp[n].taxa@,
        !t2[n].live,
        t2[c].parent == tp[n].parent,
        t2[c].chars@ == tp[n].chars@ + tp[c].chars@,
        t2[c].taxa@ == tp[c].taxa@,
        t2[c].live == tp[c].live,
    ensures
        tree_wf(t2),
        forall|k: int| 0 <= k < tp.len() && (#[trigger] t2[k]).live
            ==> path_chars(t2, k) == path_chars(tp, k),
{
    let pn = tp[n].parent as int;
    assert(pn < n < c);
    // well-formedness: the only live child of n was c, now below n's parent
    assert forall|k: int| 1 <= k < t2.len() && (#[trigger] t2[k]).live implies
        t2[t2[k].parent as int].live by {
        if k != n && k != c {
            assert(tp[k].live);
            if tp[k].parent == n {
                lemma_lcc_one_unique(tp, n, c, k);
                assert(false);
            } else {
                assert(t2[k].parent == tp[k].parent);
                assert(tp[tp[k].parent as int].live);
                assert(tp[k].parent != n);
            }
        } else if k == c {
            assert(tp[pn].live);
            assert(pn != n);
        }
    }
    // the child's path set is unchanged
    assert forall|k: int| 0 <= k <= pn implies
        (#[trigger] t2[k]).parent == tp[k].parent && t2[k].chars@ == tp[k].chars@ by {}
    lemma_path_chars_prefix(tp, t2, pn);
    vstd::seq_lib::seq_to_set_distributes_over_add(tp[n].chars@, tp[c].chars@);
    assert(path_chars(t2, c)
        == path_chars(t2, pn).union((tp[n].chars@ + tp[c].chars@).to_set()));
    assert(path_chars(tp, c) == path_chars(tp, n).union(tp[c].chars@.to_set()));
    assert(path_chars(tp, n) == path_chars(tp, pn).union(tp[n].chars@.to_set()));
    assert(path_chars(t2, c) =~= path_chars(tp, c));
    assert forall|k: int| 0 <= k < tp.len() && (#[trigger] t2[k]).live implies
        path_chars(t2, k) == path_chars(tp, k) by {
        lemma_path_chars_except(tp, t2, c, k);
    }
}

} // verus!
