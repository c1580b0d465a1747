//! Tree synthesis for a laminar matrix.
//!
//! For every taxon row the builder walks down from the root, following the
//! character order; at every present cell it moves along the edge carrying
//! that character, creating the edge and a fresh node when none exists yet.
//! The taxon is then attached to the node reached, or, when the walk never
//! left the root, to a fresh unlabelled child of the root, so that the root
//! itself never carries taxa.

use vstd::prelude::*;
use crate::laminar::laminar;
use crate::matrix::{mat_view, present_set, rectangular};
use crate::order::{col_named, order_covers};
use crate::tree::{
    all_live, find_child, lemma_empty_to_set, lemma_path_chars_extend, lemma_singleton_to_set,
    path_chars, tree_bounded, tree_wf, PhyloNode, PhyloTree,
};

verus! {

/// The characters acquired after the first `p` positions of the order on
/// row `i`: those present in the row among the columns visited so far.
pub open spec fn walk_set(
    m: Seq<Seq<usize>>,
    ord: Seq<(usize, usize)>,
    i: int,
    p: int,
) -> Set<usize> {
    Set::new(|c: usize| exists|q: int|
        0 <= q < p && (#[trigger] ord[q]).1 == c && m[i][c as int] == 1)
}

/// Once the whole order has been walked, the acquired characters are
/// exactly the present columns of the row.
proof fn lemma_walk_set_complete(m: Seq<Seq<usize>>, ord: Seq<(usize, usize)>, i: int)
    requires
        rectangular(m),
        0 <= i < m.len(),
        order_covers(ord, m[0].len() as int),
    ensures
        walk_set(m, ord, i, ord.len() as int) == present_set(m, i),
{
    let w = walk_set(m, ord, i, ord.len() as int);
    let ps = present_set(m, i);
    assert forall|c: usize| ps.contains(c) implies w.contains(c) by {
        assert(m[i].len() == m[0].len());
        assert(col_named(ord, c));
        let q = choose|q: int| 0 <= q < ord.len() && (#[trigger] ord[q]).1 == c;
        assert(0 <= q < ord.len() && ord[q].1 == c && m[i][c as int] == 1);
    }
    assert forall|c: usize| w.contains(c) implies ps.contains(c) by {
        let q = choose|q: int|
            0 <= q < ord.len() && (#[trigger] ord[q]).1 == c && m[i][c as int] == 1;
        assert(ord[q].1 < m[0].len());
        assert(m[i].len() == m[0].len());
    }
    assert(w =~= ps);
}

/// Taxon `i` of the matrix rests at node `pl[i]` of the arena: the node
/// carries the taxon and the characters on its root path are exactly the
/// present columns of row `i`.
pub open spec fn placed(
    t: Seq<PhyloNode>,
    m: Seq<Seq<usize>>,
    pl: Seq<usize>,
    i: int,
) -> bool {
    &&& pl[i] < t.len()
    &&& t[pl[i] as int].taxa@.contains(i as usize)
    &&& path_chars(t, pl[i] as int) == present_set(m, i)
}

/// Build the raw phylogeny tree of a laminar matrix, returning the arena
/// and, per taxon, the handle of the node where the taxon was attached.
pub fn build_tree(mat: &Vec<Vec<usize>>, order: &Vec<(usize, usize)>) -> (res: (
    PhyloTree,
    Vec<usize>,
))
    requires
        rectangular(mat_view(mat)),
        order_covers(order@, mat_view(mat)[0].len() as int),
        laminar(mat_view(mat), order@),
    ensures
        tree_wf(res.0.nodes@),
        all_live(res.0.nodes@),
        tree_bounded(res.0.nodes@, mat_view(mat).len() as int, mat_view(mat)[0].len() as int),
        res.1@.len() == mat_view(mat).len(),
        forall|i: int| 0 <= i < res.1@.len() ==> #[trigger] placed(res.0.nodes@, mat_view(mat), res.1@, i),
{
    let ghost m = mat_view(mat);
    let ghost ord = order@;
    let rows = mat.len();
    let ghost cols = m[0].len() as int;

    let mut t = PhyloTree { nodes: Vec::new() };
    let root = PhyloNode { parent: 0, chars: Vec::new(), taxa: Vec::new(), live: true };
    t.nodes.push(root);
    let mut placement: Vec<usize> = Vec::new();

    let mut i: usize = 0;
    while i < rows
        invariant
            rectangular(m),
            m == mat_view(mat),
            ord == order@,
            rows == mat.len(),
            cols == m[0].len() as int,
            order_covers(ord, cols),
            i <= rows,
            tree_wf(t.nodes@),
            all_live(t.nodes@),
            tree_bounded(t.nodes@, rows as int, cols),
            placement@.len() == i,
            forall|i2: int| 0 <= i2 < i ==> #[trigger] placed(t.nodes@, m, placement@, i2),
        decreases rows - i,
    {
        let mut curr: usize = 0;
        let mut p: usize = 0;
        proof {
            assert(path_chars(t.nodes@, 0) =~= walk_set(m, ord, i as int, 0));
        }
        while p < order.len()
            invariant
                rectangular(m),
                m == mat_view(mat),
                ord == order@,
                rows == mat.len(),
                cols == m[0].len() as int,
                order_covers(ord, cols),
                i < rows,
                p <= ord.len(),
                tree_wf(t.nodes@),
                all_live(t.nodes@),
                tree_bounded(t.nodes@, rows as int, cols),
                curr < t.nodes@.len(),
                path_chars(t.nodes@, curr as int) == walk_set(m, ord, i as int, p as int),
                placement@.len() == i,
                forall|i2: int| 0 <= i2 < i ==> #[trigger] placed(t.nodes@, m, placement@, i2),
            decreases order.len() - p,
        {
            let j = order[p].1;
            proof {
                assert(m[i as int] == mat@[i as int]@);
                assert(ord[p as int].1 < cols);
            }
            if mat[i][j] == 1 {
                proof {
                    assert(walk_set(m, ord, i as int, p as int + 1)
                        =~= walk_set(m, ord, i as int, p as int).insert(j));
                }
                match find_child(&t, curr, j) {
                    Some(w) => {
                        proof {
                            assert(path_chars(t.nodes@, w as int)
                                == path_chars(t.nodes@, curr as int).union(
                                    t.nodes@[w as int].chars@.to_set()));
                            lemma_singleton_to_set(t.nodes@[w as int].chars@, j);
                            assert(path_chars(t.nodes@, w as int)
                                =~= walk_set(m, ord, i as int, p as int + 1));
                        }
                        curr = w;
                    },
                    None => {
                        let ghost before = t.nodes@;
                        let mut cv: Vec<usize> = Vec::new();
                        cv.push(j);
                        let node = PhyloNode {
                            parent: curr,
                            chars: cv,
                            taxa: Vec::new(),
                            live: true,
                        };
                        t.nodes.push(node);
                        let fresh = t.nodes.len() - 1;
                        proof {
                            assert forall|k: int| 0 <= k < before.len() implies
                                path_chars(t.nodes@, k) == path_chars(before, k) by {
                                lemma_path_chars_extend(before, t.nodes@, k);
                            }
                            lemma_singleton_to_set(t.nodes@[fresh as int].chars@, j);
                            assert(t.nodes@[fresh as int].parent == curr < fresh);
                            assert(path_chars(t.nodes@, fresh as int)
                                == path_chars(t.nodes@, curr as int).union(
                                    t.nodes@[fresh as int].chars@.to_set()));
                            assert(path_chars(t.nodes@, fresh as int)
                                =~= walk_set(m, ord, i as int, p as int + 1));
                            assert forall|i2: int| 0 <= i2 < i implies
                                #[trigger] placed(t.nodes@, m, placement@, i2) by {
                                assert(placed(before, m, placement@, i2));
                            }
                        }
                        curr = fresh;
                    },
                }
            } else {
                proof {
                    assert(walk_set(m, ord, i as int, p as int + 1)
                        =~= walk_set(m, ord, i as int, p as int));
                }
            }
            p = p + 1;
        }
        proof {
            lemma_walk_set_complete(m, ord, i as int);
        }
        if curr == 0 {
            // The walk never left the root: the root's label stays clean and
            // the taxon becomes a fresh leaf child attached by an unlabelled
            // edge.
            let ghost before = t.nodes@;
            let ghost pl0 = placement@;
            let mut tv: Vec<usize> = Vec::new();
            tv.push(i);
            let node = PhyloNode { parent: 0, chars: Vec::new(), taxa: tv, live: true };
            t.nodes.push(node);
            let fresh = t.nodes.len() - 1;
            placement.push(fresh);
            proof {
                assert forall|k: int| 0 <= k < before.len() implies
                    path_chars(t.nodes@, k) == path_chars(before, k) by {
                    lemma_path_chars_extend(before, t.nodes@, k);
                }
                lemma_empty_to_set(t.nodes@[fresh as int].chars@);
                assert(path_chars(t.nodes@, fresh as int)
                    == path_chars(t.nodes@, 0).union(t.nodes@[fresh as int].chars@.to_set()));
                assert(path_chars(t.nodes@, fresh as int) =~= present_set(m, i as int));
                assert(t.nodes@[fresh as int].taxa@[0] == i);
                assert(t.nodes@[fresh as int].taxa@.contains(i));
                assert(placed(t.nodes@, m, placement@, i as int));
                assert forall|i2: int| 0 <= i2 < i implies
                    #[trigger] placed(t.nodes@, m, placement@, i2) by {
                    assert(placed(before, m, pl0, i2));
                    assert(placement@[i2] == pl0[i2]);
                }
            }
        } else {
            let ghost before = t.nodes@;
            let ghost pl0 = placement@;
            t.nodes[curr].taxa.push(i);
            placement.push(curr);
            proof {
                assert forall|k: int| 0 <= k < before.len() implies
                    path_chars(t.nodes@, k) == path_chars(before, k) by {
                    lemma_path_chars_extend(before, t.nodes@, k);
                }
                assert(t.nodes@[curr as int].taxa@ == before[curr as int].taxa@.push(i));
                assert(t.nodes@[curr as int].taxa@.last() == i);
                assert(t.nodes@[curr as int].taxa@.contains(i));
                assert(placed(t.nodes@, m, placement@, i as int));
                assert forall|i2: int| 0 <= i2 < i implies
                    #[trigger] placed(t.nodes@, m, placement@, i2) by {
                    assert(placed(before, m, pl0, i2));
                    assert(placement@[i2] == pl0[i2]);
                    let n2 = pl0[i2] as int;
                    if n2 == curr as int {
                        let q = choose|q: int|
                            0 <= q < before[n2].taxa@.len() && before[n2].taxa@[q] == i2 as usize;
                        assert(t.nodes@[n2].taxa@[q] == i2 as usize);
                        assert(t.nodes@[n2].taxa@.contains(i2 as usize));
                    } else {
                        assert(t.nodes@[n2].taxa@ == before[n2].taxa@);
                    }
                }
            }
        }
        i = i + 1;
    }
    (t, placement)
}

} // verus!
