//! The exported tree: a petgraph graph with printable labels.
//!
//! Node labels name the taxa attached at a node (`S_1 S_2`, 1-based), the
//! root is labelled `Root`, and edge labels chain the characters acquired
//! along the edge (`C_1,C_3`, 1-based).  The graph is built from the arena
//! through trusted wrappers around petgraph; what the wrappers guarantee is
//! stated over the two content names [`graph_nodes`] and [`graph_edges`].

use vstd::prelude::*;
use petgraph::graph::{Graph, NodeIndex};
use crate::normalize::live_count_upto;
use crate::tree::{path_chars, tree_bounded, tree_wf, PhyloTree};

verus! {

/// The decimal digit character for `d`.
pub open spec fn digit_char(d: int) -> char {
    if d == 0 { '0' }
    else if d == 1 { '1' }
    else if d == 2 { '2' }
    else if d == 3 { '3' }
    else if d == 4 { '4' }
    else if d == 5 { '5' }
    else if d == 6 { '6' }
    else if d == 7 { '7' }
    else if d == 8 { '8' }
    else { '9' }
}

/// The decimal digits of `v`, most significant first.
pub open spec fn dec_digits(v: nat) -> Seq<char>
    decreases v,
{
    if v < 10 {
        seq![digit_char(v as int)]
    } else {
        dec_digits(v / 10).push(digit_char((v % 10) as int))
    }
}

/// The printable label of one taxon, 1-based.
pub open spec fn taxon_text(x: usize) -> Seq<char> {
    seq!['S', '_'] + dec_digits((x + 1) as nat)
}

/// The printable label of a node: its taxa separated by blanks.
pub open spec fn taxa_label(taxa: Seq<usize>) -> Seq<char>
    decreases taxa.len(),
{
    if taxa.len() == 0 {
        Seq::empty()
    } else if taxa.len() == 1 {
        taxon_text(taxa[0])
    } else {
        taxa_label(taxa.drop_last()) + seq![' '] + taxon_text(taxa.last())
    }
}

/// The printable label of one character, 1-based.
pub open spec fn char_text(c: usize) -> Seq<char> {
    seq!['C', '_'] + dec_digits((c + 1) as nat)
}

/// The printable label of an edge: its character chain separated by commas.
pub open spec fn chars_label(chars: Seq<usize>) -> Seq<char>
    decreases chars.len(),
{
    if chars.len() == 0 {
        Seq::empty()
    } else if chars.len() == 1 {
        char_text(chars[0])
    } else {
        chars_label(chars.drop_last()) + seq![','] + char_text(chars.last())
    }
}

/// The reserved label of the root node.
pub open spec fn root_label() -> Seq<char> {
    seq!['R', 'o', 'o', 't']
}

/// The printable label of arena node `n`.
pub open spec fn node_label(t: Seq<crate::tree::PhyloNode>, n: int) -> Seq<char> {
    if n == 0 {
        root_label()
    } else {
        taxa_label(t[n].taxa@)
    }
}

fn digit_str(d: usize) -> (r: &'static str)
    requires
        d < 10,
    ensures
        r@ == seq![digit_char(d as int)],
{
    let r = match d {
        0 => "0",
        1 => "1",
        2 => "2",
        3 => "3",
        4 => "4",
        5 => "5",
        6 => "6",
        7 => "7",
        8 => "8",
        _ => "9",
    };
    proof {
        reveal_strlit("0");
        reveal_strlit("1");
        reveal_strlit("2");
        reveal_strlit("3");
        reveal_strlit("4");
        reveal_strlit("5");
        reveal_strlit("6");
        reveal_strlit("7");
        reveal_strlit("8");
        reveal_strlit("9");
        assert(r@ =~= seq![digit_char(d as int)]);
    }
    r
}

/// Append the decimal digits of `v`.
fn push_dec(s: &mut String, v: usize)
    ensures
        final(s)@ == old(s)@ + dec_digits(v as nat),
    decreases v,
{
    if v >= 10 {
        push_dec(s, v / 10);
    }
    let ghost mid = s@;
    s.append(digit_str(v % 10));
    proof {
        if v < 10 {
            assert(s@ =~= old(s)@ + dec_digits(v as nat));
        } else {
            assert(mid == old(s)@ + dec_digits((v / 10) as nat));
            assert(dec_digits(v as nat)
                == dec_digits((v / 10) as nat).push(digit_char((v % 10) as int)));
            assert(s@ =~= old(s)@ + dec_digits(v as nat));
        }
    }
}

/// Render the label of a non-root node from its taxa.
fn render_taxa(taxa: &Vec<usize>) -> (s: String)
    requires
        forall|k: int| 0 <= k < taxa@.len() ==> #[trigger] taxa@[k] < usize::MAX,
    ensures
        s@ == taxa_label(taxa@),
{
    let mut s = String::new();
    let mut k: usize = 0;
    proof {
        assert(s@ =~= taxa_label(taxa@.subrange(0, 0)));
    }
    while k < taxa.len()
        invariant
            k <= taxa@.len(),
            forall|k2: int| 0 <= k2 < taxa@.len() ==> #[trigger] taxa@[k2] < usize::MAX,
            s@ == taxa_label(taxa@.subrange(0, k as int)),
        decreases taxa@.len() - k,
    {
        let ghost pre = taxa@.subrange(0, k as int);
        if k > 0 {
            s.append(" ");
        }
        s.append("S_");
        push_dec(&mut s, taxa[k] + 1);
        k = k + 1;
        proof {
            reveal_strlit(" ");
            reveal_strlit("S_");
            let cur = taxa@.subrange(0, k as int);
            assert(cur.drop_last() =~= pre);
            assert(cur.last() == taxa@[k - 1]);
            if k == 1 {
                assert(s@ =~= taxon_text(taxa@[0]));
                assert(cur.len() == 1 && cur[0] == taxa@[0]);
            } else {
                assert(s@ =~= taxa_label(pre) + seq![' '] + taxon_text(taxa@[k - 1]));
            }
        }
    }
    proof {
        assert(taxa@.subrange(0, taxa@.len() as int) =~= taxa@);
    }
    s
}

/// Render the label of an edge from its character chain.
fn render_chars(chars: &Vec<usize>) -> (s: String)
    requires
        forall|k: int| 0 <= k < chars@.len() ==> #[trigger] chars@[k] < usize::MAX,
    ensures
        s@ == chars_label(chars@),
{
    let mut s = String::new();
    let mut k: usize = 0;
    proof {
        assert(s@ =~= chars_label(chars@.subrange(0, 0)));
    }
    while k < chars.len()
        invariant
            k <= chars@.len(),
            forall|k2: int| 0 <= k2 < chars@.len() ==> #[trigger] chars@[k2] < usize::MAX,
            s@ == chars_label(chars@.subrange(0, k as int)),
        decreases chars@.len() - k,
    {
        let ghost pre = chars@.subrange(0, k as int);
        if k > 0 {
            s.append(",");
        }
        s.append("C_");
        push_dec(&mut s, chars[k] + 1);
        k = k + 1;
        proof {
            reveal_strlit(",");
            reveal_strlit("C_");
            let cur = chars@.subrange(0, k as int);
            assert(cur.drop_last() =~= pre);
            assert(cur.last() == chars@[k - 1]);
            if k == 1 {
                assert(s@ =~= char_text(chars@[0]));
                assert(cur.len() == 1 && cur[0] == chars@[0]);
            } else {
                assert(s@ =~= chars_label(pre) + seq![','] + char_text(chars@[k - 1]));
            }
        }
    }
    proof {
        assert(chars@.subrange(0, chars@.len() as int) =~= chars@);
    }
    s
}

/// Declares petgraph's edge-direction marker type, which stands in the
/// default type arguments of `Graph`.
#[verifier::external_type_specification]
#[verifier::external_body]
pub struct ExDirected(petgraph::Directed);

/// Declares petgraph's graph type; its values are opaque here and are
/// only described through [`graph_nodes`] and [`graph_edges`].
#[verifier::external_type_specification]
#[verifier::external_body]
#[verifier::reject_recursive_types(N)]
#[verifier::reject_recursive_types(E)]
#[verifier::reject_recursive_types(Ty)]
#[verifier::reject_recursive_types(Ix)]
pub struct ExGraph<N, E, Ty, Ix>(Graph<N, E, Ty, Ix>);

/// The node weights of a petgraph graph, in node-index order.
pub uninterp spec fn graph_nodes(g: Graph<String, String>) -> Seq<Seq<char>>;

/// The edges of a petgraph graph, in edge-index order: source node index,
/// target node index, weight.
pub uninterp spec fn graph_edges(g: Graph<String, String>) -> Seq<(usize, usize, Seq<char>)>;

/// Relies on petgraph's Graph::new: a graph with no nodes and no edges.
#[verifier::external_body]
pub(crate) fn graph_new() -> (g: Graph<String, String>)
    ensures
        graph_nodes(g).len() == 0,
        graph_edges(g).len() == 0,
{
    Graph::new()
}

/// Relies on petgraph's Graph::add_node: appends one node holding the given
/// weight and returns its index, the node count before the call.
#[verifier::external_body]
fn graph_add_node(g: &mut Graph<String, String>, label: String) -> (id: usize)
    requires
        graph_nodes(*old(g)).len() < u32::MAX,
    ensures
        graph_nodes(*final(g)) == graph_nodes(*old(g)).push(label@),
        graph_edges(*final(g)) == graph_edges(*old(g)),
        id == graph_nodes(*old(g)).len(),
{
    g.add_node(label).index()
}

/// Relies on petgraph's Graph::add_edge: appends one directed edge between
/// two existing nodes, holding the given weight.
#[verifier::external_body]
fn graph_add_edge(g: &mut Graph<String, String>, a: usize, b: usize, label: String)
    requires
        a < graph_nodes(*old(g)).len(),
        b < graph_nodes(*old(g)).len(),
        graph_edges(*old(g)).len() < u32::MAX,
    ensures
        graph_nodes(*final(g)) == graph_nodes(*old(g)),
        graph_edges(*final(g)) == graph_edges(*old(g)).push((a, b, label@)),
{
    g.add_edge(NodeIndex::new(a), NodeIndex::new(b), label);
}

/// An edge with this source, target and label stands in the graph.
pub open spec fn edge_in(
    es: Seq<(usize, usize, Seq<char>)>,
    a: usize,
    b: usize,
    lbl: Seq<char>,
) -> bool {
    exists|e: int| 0 <= e < es.len() && #[trigger] es[e] == (a, b, lbl)
}

proof fn lemma_edge_in_push(
    es: Seq<(usize, usize, Seq<char>)>,
    x: (usize, usize, Seq<char>),
    a: usize,
    b: usize,
    lbl: Seq<char>,
)
    requires
        edge_in(es, a, b, lbl),
    ensures
        edge_in(es.push(x), a, b, lbl),
{
    let e = choose|e: int| 0 <= e < es.len() && #[trigger] es[e] == (a, b, lbl);
    assert(es.push(x)[e] == (a, b, lbl));
}

/// Build the exported petgraph graph from the live part of the arena.  The
/// returned map gives, for each live arena node, its index in the graph.
#[verifier::rlimit(100)]
pub fn tree_to_graph(t: &PhyloTree, rows: usize, cols: usize) -> (res: (
    Graph<String, String>,
    Vec<usize>,
))
    requires
        tree_wf(t.nodes@),
        tree_bounded(t.nodes@, rows as int, cols as int),
        t.nodes@.len() < u32::MAX,
    ensures
        res.1@.len() == t.nodes@.len(),
        graph_nodes(res.0).len() == live_count_upto(t.nodes@, t.nodes@.len() as int),
        res.1@[0] == 0,
        graph_nodes(res.0)[0] == root_label(),
        graph_edges(res.0).len() + 1 == graph_nodes(res.0).len(),
        forall|n: int| 0 <= n < t.nodes@.len() && (#[trigger] t.nodes@[n]).live
            ==> res.1@[n] < graph_nodes(res.0).len()
                && graph_nodes(res.0)[res.1@[n] as int] == node_label(t.nodes@, n),
        forall|n: int| 1 <= n < t.nodes@.len() && (#[trigger] t.nodes@[n]).live
            ==> edge_in(graph_edges(res.0), res.1@[t.nodes@[n].parent as int], res.1@[n],
                    chars_label(t.nodes@[n].chars@)),
{
    let mut g = graph_new();
    let mut ids: Vec<usize> = Vec::new();
    let mut n: usize = 0;
    while n < t.nodes.len()
        invariant
            tree_wf(t.nodes@),
            tree_bounded(t.nodes@, rows as int, cols as int),
            t.nodes@.len() < u32::MAX,
            n <= t.nodes@.len(),
            ids@.len() == n,
            graph_nodes(g).len() == live_count_upto(t.nodes@, n as int),
            graph_nodes(g).len() <= n,
            n == 0 ==> graph_nodes(g).len() == 0 && graph_edges(g).len() == 0,
            n > 0 ==> graph_edges(g).len() + 1 == graph_nodes(g).len(),
            n > 0 ==> ids@[0] == 0 && graph_nodes(g).len() >= 1
                && graph_nodes(g)[0] == root_label(),
            forall|n2: int| 0 <= n2 < n && (#[trigger] t.nodes@[n2]).live
                ==> ids@[n2] < graph_nodes(g).len()
                    && graph_nodes(g)[ids@[n2] as int] == node_label(t.nodes@, n2),
            forall|n2: int| 1 <= n2 < n && (#[trigger] t.nodes@[n2]).live
                ==> edge_in(graph_edges(g), ids@[t.nodes@[n2].parent as int], ids@[n2],
                        chars_label(t.nodes@[n2].chars@)),
        decreases t.nodes@.len() - n,
    {
        if t.nodes[n].live {
            let label = if n == 0 {
                let s = String::from_str("Root");
                proof {
                    reveal_strlit("Root");
                    assert(s@ =~= root_label());
                }
                s
            } else {
                proof {
                    assert(forall|k: int| 0 <= k < t.nodes@[n as int].taxa@.len()
                        ==> #[trigger] t.nodes@[n as int].taxa@[k] < usize::MAX);
                }
                render_taxa(&t.nodes[n].taxa)
            };
            let gid = graph_add_node(&mut g, label);
            ids.push(gid);
            if n > 0 {
                let parent = t.nodes[n].parent;
                proof {
                    assert(t.nodes@[n as int].parent < n);
                    assert(t.nodes@[parent as int].live);
                    assert(forall|k: int| 0 <= k < t.nodes@[n as int].chars@.len()
                        ==> #[trigger] t.nodes@[n as int].chars@[k] < usize::MAX);
                }
                let elabel = render_chars(&t.nodes[n].chars);
                let pid = ids[parent];
                let ghost es0 = graph_edges(g);
                graph_add_edge(&mut g, pid, gid, elabel);
                proof {
                    assert(graph_edges(g)[es0.len() as int]
                        == (pid, gid, chars_label(t.nodes@[n as int].chars@)));
                    assert(edge_in(graph_edges(g), pid, gid,
                        chars_label(t.nodes@[n as int].chars@)));
                    assert forall|n2: int| 1 <= n2 < n && (#[trigger] t.nodes@[n2]).live
                        implies edge_in(graph_edges(g), ids@[t.nodes@[n2].parent as int],
                            ids@[n2], chars_label(t.nodes@[n2].chars@)) by {
                        lemma_edge_in_push(es0,
                            (pid, gid, chars_label(t.nodes@[n as int].chars@)),
                            ids@[t.nodes@[n2].parent as int], ids@[n2],
                            chars_label(t.nodes@[n2].chars@));
                    }
                }
            }
        } else {
            ids.push(0);
        }
        n = n + 1;
    }
    (g, ids)
}

} // verus!
