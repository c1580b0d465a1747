//! The phylogeny tree, kept as an arena of nodes under stable integer
//! handles.
//!
//! Node 0 is the distinguished root.  Every other node records its parent,
//! the chain of characters labelling the edge arriving from that parent
//! (empty for an unlabelled edge), and the taxa attached at the node.  A
//! node spliced out by compaction is only marked dead, so handles never
//! move.  Well-formedness pins the parent of every node below the node
//! itself, which makes the root-to-node paths well defined.

use vstd::prelude::*;

verus! {

/// One node of the arena.
pub struct PhyloNode {
    /// Handle of the parent; the root holds its own handle.
    pub parent: usize,
    /// Characters on the edge from the parent, in acquisition order.
    pub chars: Vec<usize>,
    /// Taxa attached at this node, in attachment order.
    pub taxa: Vec<usize>,
    /// False once compaction has spliced the node out.
    pub live: bool,
}

/// A rooted tree in an arena of nodes.
pub struct PhyloTree {
    pub nodes: Vec<PhyloNode>,
}

/// Well-formed arena: the root is node 0, a live unlabelled node without
/// taxa, and every other node hangs below an earlier node that is live
/// whenever it is.
pub open spec fn tree_wf(t: Seq<PhyloNode>) -> bool {
    &&& t.len() > 0
    &&& t[0].parent == 0
    &&& t[0].chars@.len() == 0
    &&& t[0].taxa@.len() == 0
    &&& t[0].live
    &&& forall|n: int| 1 <= n < t.len() ==> (#[trigger] t[n]).parent < n
    &&& forall|n: int| 1 <= n < t.len() && (#[trigger] t[n]).live ==> t[t[n].parent as int].live
}

/// Every node of the arena is live (true before compaction).
pub open spec fn all_live(t: Seq<PhyloNode>) -> bool {
    forall|n: int| 0 <= n < t.len() ==> (#[trigger] t[n]).live
}

/// Taxa below `rows` and characters below `cols`, at every node.
pub open spec fn tree_bounded(t: Seq<PhyloNode>, rows: int, cols: int) -> bool {
    &&& forall|n: int, k: int| 0 <= n < t.len() && 0 <= k < (#[trigger] t[n]).taxa@.len()
        ==> (#[trigger] t[n].taxa@[k]) < rows
    &&& forall|n: int, k: int| 0 <= n < t.len() && 0 <= k < (#[trigger] t[n]).chars@.len()
        ==> (#[trigger] t[n].chars@[k]) < cols
}

/// The set of characters on the root-to-`n` path.
pub open spec fn path_chars(t: Seq<PhyloNode>, n: int) -> Set<usize>
    decreases n,
{
    if n <= 0 || n >= t.len() || t[n].parent >= n {
        Set::empty()
    } else {
        path_chars(t, t[n].parent as int).union(t[n].chars@.to_set())
    }
}

/// The set of characters of a one-character edge.
pub proof fn lemma_singleton_to_set(s: Seq<usize>, c: usize)
    requires
        s.len() == 1,
        s[0] == c,
    ensures
        s.to_set() == Set::empty().insert(c),
{
    assert(s.contains(c));
    assert forall|x: usize| s.to_set().contains(x) implies x == c by {
        let q = choose|q: int| 0 <= q < s.len() && s[q] == x;
    }
    assert(s.to_set() =~= Set::empty().insert(c));
}

/// The set of characters of an unlabelled edge.
pub proof fn lemma_empty_to_set(s: Seq<usize>)
    requires
        s.len() == 0,
    ensures
        s.to_set() == Set::<usize>::empty(),
{
    assert forall|x: usize| !s.to_set().contains(x) by {
        if s.contains(x) {
            let q = choose|q: int| 0 <= q < s.len() && s[q] == x;
        }
    }
    assert(s.to_set() =~= Set::<usize>::empty());
}

/// Extending the arena with new nodes, or changing only taxa and liveness,
/// leaves every old root-to-node path unchanged.
pub proof fn lemma_path_chars_extend(t1: Seq<PhyloNode>, t2: Seq<PhyloNode>, n: int)
    requires
        t1.len() <= t2.len(),
        forall|k: int| 0 <= k < t1.len()
            ==> (#[trigger] t2[k]).parent == t1[k].parent && t2[k].chars@ == t1[k].chars@,
        0 <= n < t1.len(),
    ensures
        path_chars(t2, n) == path_chars(t1, n),
    decreases n,
{
    if !(n <= 0 || n >= t1.len() || t1[n].parent >= n) {
        lemma_path_chars_extend(t1, t2, t1[n].parent as int);
    }
}

/// Root-to-node paths only read the nodes up to `n`, so agreement on that
/// prefix is enough to preserve the path set.
pub proof fn lemma_path_chars_prefix(t1: Seq<PhyloNode>, t2: Seq<PhyloNode>, n: int)
    requires
        0 <= n < t1.len(),
        n < t2.len(),
        forall|k: int| 0 <= k <= n
            ==> (#[trigger] t2[k]).parent == t1[k].parent && t2[k].chars@ == t1[k].chars@,
    ensures
        path_chars(t2, n) == path_chars(t1, n),
    decreases n,
{
    if !(n <= 0 || t1[n].parent >= n) {
        lemma_path_chars_prefix(t1, t2, t1[n].parent as int);
    }
}

/// Every taxon carried by a live node of `t1` is carried by some live node
/// of `t2` whose root path bears the same characters: no taxon loses its
/// character set across a tree transformation.
pub open spec fn relocated(t1: Seq<PhyloNode>, t2: Seq<PhyloNode>) -> bool {
    forall|n: int, x: usize|
        0 <= n < t1.len() && t1[n].live && (#[trigger] t1[n].taxa@.contains(x))
            ==> exists|n2: int|
                0 <= n2 < t2.len() && (#[trigger] t2[n2].live) && t2[n2].taxa@.contains(x)
                    && path_chars(t2, n2) == path_chars(t1, n)
}

/// Changing one node so that its own path set is preserved leaves every
/// other root-to-node path unchanged as well.
pub proof fn lemma_path_chars_except(t1: Seq<PhyloNode>, t2: Seq<PhyloNode>, c: int, n: int)
    requires
        t1.len() == t2.len(),
        forall|k: int| 0 <= k < t1.len() && k != c
            ==> (#[trigger] t2[k]).parent == t1[k].parent && t2[k].chars@ == t1[k].chars@,
        path_chars(t2, c) == path_chars(t1, c),
        0 <= n < t1.len(),
    ensures
        path_chars(t2, n) == path_chars(t1, n),
    decreases n,
{
    if n != c {
        if !(n <= 0 || n >= t1.len() || t1[n].parent >= n) {
            lemma_path_chars_except(t1, t2, c, t1[n].parent as int);
        }
    }
}

/// Find the live child of `curr` whose arriving edge carries exactly the
/// single character `c`.
pub fn find_child(t: &PhyloTree, curr: usize, c: usize) -> (res: Option<usize>)
    requires
        tree_wf(t.nodes@),
        curr < t.nodes.len(),
    ensures
        match res {
            Some(w) => curr < w < t.nodes@.len() && t.nodes@[w as int].parent == curr
                && t.nodes@[w as int].live && t.nodes@[w as int].chars@ =~= seq![c],
            None => forall|n: int| curr < n < t.nodes@.len()
                ==> !((#[trigger] t.nodes@[n]).parent == curr && t.nodes@[n].live
                    && t.nodes@[n].chars@ =~= seq![c]),
        },
{
    let mut n: usize = curr + 1;
    while n < t.nodes.len()
        invariant
            curr < t.nodes@.len(),
            n >= curr + 1,
            forall|k: int| curr < k < n ==> !((#[trigger] t.nodes@[k]).parent == curr
                && t.nodes@[k].live && t.nodes@[k].chars@ =~= seq![c]),
        decreases t.nodes.len() - n,
    {
        if t.nodes[n].parent == curr && t.nodes[n].live && t.nodes[n].chars.len() == 1
            && t.nodes[n].chars[0] == c {
            proof {
                assert(t.nodes@[n as int].chars@ =~= seq![c]);
            }
            return Some(n);
        }
        proof {
            if t.nodes@[n as int].chars@ =~= seq![c] {
                assert(t.nodes@[n as int].chars@.len() == 1);
                assert(t.nodes@[n as int].chars@[0] == c);
            }
        }
        n = n + 1;
    }
    None
}

} // verus!
