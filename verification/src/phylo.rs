//! The pipeline and its immutable result bundle.
//!
//! [`PerfectPhylogeny::new`] orders the characters, decides laminarity and,
//! when the matrix is laminar, synthesizes and normalizes the tree.  The
//! result owns the matrix, the order, the `perfect` flag, the tree arena
//! and the exported petgraph graph; nothing is mutated afterwards.

use vstd::prelude::*;
use petgraph::graph::Graph;
use crate::builder::{build_tree, placed};
use crate::laminar::{is_laminar, laminar};
use crate::matrix::{mat_view, present_set, rectangular};
use crate::normalize::{compact_tree, split_labels, splice_cand, live_count_upto};
use crate::order::{character_order, order_spec};
use crate::render::{graph_edges, graph_nodes, root_label, tree_to_graph};
use crate::tree::{path_chars, tree_wf, PhyloNode, PhyloTree};

verus! {

/// Taxon `i` of matrix `m` rests at some live node of the arena whose root
/// path carries exactly the characters present in row `i`.
pub open spec fn taxon_path_ok(t: Seq<PhyloNode>, m: Seq<Seq<usize>>, i: int) -> bool {
    exists|n: int|
        0 <= n < t.len() && (#[trigger] t[n]).live && t[n].taxa@.contains(i as usize)
            && path_chars(t, n) == present_set(m, i)
}

/// Laminarity is order-consistent: for one matrix the character order is a
/// single determined value, whatever ties its column sums hold, and the
/// laminarity verdict is a function of the matrix and that order alone, so
/// any two runs of the checker on the same matrix agree.
pub proof fn lemma_laminarity_order_consistent(
    m: Seq<Seq<usize>>,
    o1: Seq<(usize, usize)>,
    o2: Seq<(usize, usize)>,
    r1: bool,
    r2: bool,
)
    requires
        o1 == order_spec(m),
        o2 == order_spec(m),
        r1 == laminar(m, o1),
        r2 == laminar(m, o2),
    ensures
        o1 == o2,
        r1 == r2,
{
}

/// The outcome of the pipeline for one matrix.
pub struct PerfectPhylogeny {
    /// The matrix the pipeline ran on.
    pub matrix: Vec<Vec<usize>>,
    /// Column frequency/index pairs in visiting order.
    pub order: Vec<(usize, usize)>,
    /// Whether the matrix admits a perfect phylogeny.
    pub perfect: bool,
    /// The synthesized tree arena (a bare root when not perfect).
    pub arena: PhyloTree,
    /// The exported graph rendering of the arena (empty when not perfect).
    pub tree: Graph<String, String>,
}

/// Copy a matrix row by row.
fn clone_matrix(mat: &Vec<Vec<usize>>) -> (r: Vec<Vec<usize>>)
    ensures
        mat_view(&r) == mat_view(mat),
{
    let mut r: Vec<Vec<usize>> = Vec::new();
    let mut i: usize = 0;
    while i < mat.len()
        invariant
            i <= mat@.len(),
            r@.len() == i,
            forall|k: int| 0 <= k < i ==> (#[trigger] r@[k])@ == mat@[k]@,
        decreases mat@.len() - i,
    {
        let mut row: Vec<usize> = Vec::new();
        let mut j: usize = 0;
        while j < mat[i].len()
            invariant
                i < mat@.len(),
                j <= mat@[i as int]@.len(),
                row@ == mat@[i as int]@.subrange(0, j as int),
            decreases mat@[i as int]@.len() - j,
        {
            let x = mat[i][j];
            row.push(x);
            j = j + 1;
            proof {
                assert(row@ =~= mat@[i as int]@.subrange(0, j as int));
            }
        }
        proof {
            assert(row@ =~= mat@[i as int]@);
        }
        r.push(row);
        i = i + 1;
    }
    proof {
        assert forall|k: int| 0 <= k < r@.len() implies
            #[trigger] mat_view(&r)[k] == mat_view(mat)[k] by {
            assert(mat_view(&r)[k] == r@[k]@);
            assert(mat_view(mat)[k] == mat@[k]@);
        }
        assert(mat_view(&r) =~= mat_view(mat));
    }
    r
}

impl PerfectPhylogeny {
    /// Run the whole pipeline on a matrix: order the characters, decide
    /// laminarity and, when laminar, build and normalize the tree.  When
    /// the matrix is not laminar the result carries `perfect == false` and
    /// a trivial tree.
    pub fn new(mat: &Vec<Vec<usize>>, internal: bool) -> (res: PerfectPhylogeny)
        requires
            rectangular(mat_view(mat)),
        ensures
            mat_view(&res.matrix) == mat_view(mat),
            res.order@ == order_spec(mat_view(mat)),
            res.perfect == laminar(mat_view(mat), order_spec(mat_view(mat))),
            tree_wf(res.arena.nodes@),
            // every taxon of a laminar matrix sits on a leaf whose root path
            // carries exactly the characters of its row
            res.perfect ==> forall|i: int| 0 <= i < mat_view(mat).len()
                ==> #[trigger] taxon_path_ok(res.arena.nodes@, mat_view(mat), i),
            // the tree comes fully compacted
            forall|n: int| !splice_cand(res.arena.nodes@, n),
            !res.perfect ==> res.arena.nodes@.len() == 1
                && graph_nodes(res.tree).len() == 0,
            res.perfect && res.arena.nodes@.len() < u32::MAX ==> {
                &&& graph_nodes(res.tree).len()
                    == live_count_upto(res.arena.nodes@, res.arena.nodes@.len() as int)
                &&& graph_nodes(res.tree)[0] == root_label()
                &&& graph_edges(res.tree).len() + 1 == graph_nodes(res.tree).len()
            },
    {
        let ghost m = mat_view(mat);
        let ord = character_order(mat);
        let lam = is_laminar(mat, &ord);
        if !lam {
            let mut nodes: Vec<PhyloNode> = Vec::new();
            nodes.push(PhyloNode {
                parent: 0,
                chars: Vec::new(),
                taxa: Vec::new(),
                live: true,
            });
            let arena = PhyloTree { nodes };
            proof {
                assert(forall|n: int| !splice_cand(arena.nodes@, n));
            }
            return PerfectPhylogeny {
                matrix: clone_matrix(mat),
                order: ord,
                perfect: false,
                arena,
                tree: crate::render::graph_new(),
            };
        }
        let rows = mat.len();
        let cols = mat[0].len();
        let (mut t, placement) = build_tree(mat, &ord);
        let ghost t_built = t.nodes@;
        split_labels(&mut t, internal, false);
        let ghost t_s1 = t.nodes@;
        split_labels(&mut t, internal, true);
        let ghost t_s2 = t.nodes@;
        compact_tree(&mut t);
        proof {
            assert forall|i: int| 0 <= i < m.len() implies
                #[trigger] taxon_path_ok(t.nodes@, m, i) by {
                assert(placed(t_built, m, placement@, i));
                let n0 = placement@[i] as int;
                assert(t_built[n0].taxa@.contains(i as usize));
                let n1 = choose|n1: int|
                    0 <= n1 < t_s1.len() && (#[trigger] t_s1[n1].live)
                        && t_s1[n1].taxa@.contains(i as usize)
                        && path_chars(t_s1, n1) == path_chars(t_built, n0);
                assert(t_s1[n1].taxa@.contains(i as usize));
                let n2 = choose|n2: int|
                    0 <= n2 < t_s2.len() && (#[trigger] t_s2[n2].live)
                        && t_s2[n2].taxa@.contains(i as usize)
                        && path_chars(t_s2, n2) == path_chars(t_s1, n1);
                if !t.nodes@[n2].live {
                    assert(t_s2[n2].taxa@.len() == 0);
                    assert(false);
                }
                assert(t.nodes@[n2].taxa@ == t_s2[n2].taxa@);
                assert(path_chars(t.nodes@, n2) == path_chars(t_s2, n2));
                assert(t.nodes@[n2].live && t.nodes@[n2].taxa@.contains(i as usize)
                    && path_chars(t.nodes@, n2) == present_set(m, i));
            }
        }
        let fits = t.nodes.len() < (u32::MAX as usize);
        let tree = if fits {
            let (g, _ids) = tree_to_graph(&t, rows, cols);
            g
        } else {
            crate::render::graph_new()
        };
        PerfectPhylogeny {
            matrix: clone_matrix(mat),
            order: ord,
            perfect: true,
            arena: t,
            tree,
        }
    }

    /// The matrix the pipeline ran on.
    pub fn matrix(&self) -> (r: &Vec<Vec<usize>>)
        ensures
            r == &self.matrix,
    {
        &self.matrix
    }

    /// The character order that every stage used.
    pub fn order(&self) -> (r: &Vec<(usize, usize)>)
        ensures
            r == &self.order,
    {
        &self.order
    }

    /// Whether the matrix admits a perfect phylogeny.
    pub fn perfect(&self) -> (r: bool)
        ensures
            r == self.perfect,
    {
        self.perfect
    }

    /// The exported graph rendering of the tree.
    pub fn tree(&self) -> (r: &Graph<String, String>)
        ensures
            r == &self.tree,
    {
        &self.tree
    }
}

} // verus!
