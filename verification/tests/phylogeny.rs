use perfect_phylogeny::PerfectPhylogeny;
use perfect_phylogeny::builder::build_tree;
use perfect_phylogeny::laminar::is_laminar;
use perfect_phylogeny::normalize::{compact_tree, split_labels};
use perfect_phylogeny::order::character_order;
use perfect_phylogeny::resolve::resolve_ambiguities;
use petgraph::visit::EdgeRef;

fn node_labels(per: &PerfectPhylogeny) -> Vec<String> {
    per.tree().node_weights().cloned().collect()
}

fn edge_labels(per: &PerfectPhylogeny) -> Vec<String> {
    per.tree().edge_references().map(|e| e.weight().clone()).collect()
}

#[test]
fn order_distinct_sums() {
    let mat = vec![vec![1, 1, 1], vec![1, 1, 0], vec![1, 0, 0]];
    let per = PerfectPhylogeny::new(&mat, false);
    assert_eq!(per.order(), &vec![(3, 0), (2, 1), (1, 2)]);
    assert_eq!(per.matrix(), &mat);
}

#[test]
fn order_tie_breaks_by_index() {
    let mat = vec![vec![1, 1], vec![1, 1]];
    let per = PerfectPhylogeny::new(&mat, false);
    assert_eq!(per.order(), &vec![(2, 0), (2, 1)]);
}

#[test]
fn checker_reruns_agree() {
    let mat = vec![vec![1, 0], vec![1, 1], vec![0, 1]];
    let a = PerfectPhylogeny::new(&mat, false);
    let b = PerfectPhylogeny::new(&mat, false);
    assert_eq!(a.perfect(), b.perfect());
    assert_eq!(a.order(), b.order());
}

#[test]
fn overlapping_characters_are_rejected() {
    // characters {t1,t2} and {t2,t3} overlap without nesting
    let mat = vec![vec![1, 0], vec![1, 1], vec![0, 1]];
    let per = PerfectPhylogeny::new(&mat, false);
    assert!(!per.perfect());
    assert_eq!(per.tree().node_count(), 0);
}

#[test]
fn conflicting_matrix_is_rejected() {
    let mat = vec![vec![1, 0], vec![0, 1], vec![1, 1]];
    let per = PerfectPhylogeny::new(&mat, false);
    assert!(!per.perfect());
    assert_eq!(per.tree().node_count(), 0);
    assert_eq!(per.tree().edge_count(), 0);
}

#[test]
fn nested_matrix_builds_three_leaves() {
    // character 1 covers everything, character 2 only the second taxon
    let mat = vec![vec![1, 0], vec![1, 1], vec![1, 0]];
    let per = PerfectPhylogeny::new(&mat, false);
    assert!(per.perfect());
    let nodes = node_labels(&per);
    assert_eq!(per.tree().node_count(), 5);
    assert_eq!(per.tree().edge_count(), 4);
    assert!(nodes.contains(&"Root".to_string()));
    assert!(nodes.contains(&"S_1".to_string()));
    assert!(nodes.contains(&"S_2".to_string()));
    assert!(nodes.contains(&"S_3".to_string()));
    // the split internal node is left unlabelled
    assert!(nodes.contains(&"".to_string()));
    let edges = edge_labels(&per);
    assert!(edges.contains(&"C_1".to_string()));
    assert!(edges.contains(&"C_2".to_string()));
    // the root has a single outgoing edge, carrying the first character
    let root = per
        .tree()
        .node_indices()
        .find(|n| per.tree()[*n] == "Root")
        .unwrap();
    let out: Vec<_> = per.tree().edges(root).collect();
    assert_eq!(out.len(), 1);
    assert_eq!(out[0].weight(), "C_1");
}

#[test]
fn internal_mode_keeps_annotations() {
    let mat = vec![vec![1, 0], vec![1, 1], vec![1, 0]];
    let per = PerfectPhylogeny::new(&mat, true);
    assert!(per.perfect());
    let nodes = node_labels(&per);
    assert_eq!(per.tree().node_count(), 5);
    // the internal node keeps its taxon annotation besides the new leaves
    assert!(nodes.contains(&"S_1 S_3".to_string()));
    assert!(nodes.contains(&"S_1".to_string()));
    assert!(nodes.contains(&"S_3".to_string()));
}

#[test]
fn chain_is_fully_compacted() {
    // a single taxon acquiring three characters: the two intermediate
    // unlabelled nodes are spliced out and the edge chains merge
    let mat = vec![vec![1, 1, 1]];
    let per = PerfectPhylogeny::new(&mat, false);
    assert!(per.perfect());
    assert_eq!(per.tree().node_count(), 2);
    assert_eq!(per.tree().edge_count(), 1);
    let edges = edge_labels(&per);
    assert_eq!(edges, vec!["C_1,C_2,C_3".to_string()]);
    let nodes = node_labels(&per);
    assert!(nodes.contains(&"S_1".to_string()));
}

#[test]
fn compaction_is_idempotent() {
    let mat = vec![vec![1, 1, 1], vec![1, 1, 0]];
    let ord = character_order(&mat);
    assert!(is_laminar(&mat, &ord));
    let (mut tree, _placement) = build_tree(&mat, &ord);
    split_labels(&mut tree, false, false);
    split_labels(&mut tree, false, true);
    compact_tree(&mut tree);
    let lives: Vec<bool> = tree.nodes.iter().map(|n| n.live).collect();
    let parents: Vec<usize> = tree.nodes.iter().map(|n| n.parent).collect();
    let chars: Vec<Vec<usize>> = tree.nodes.iter().map(|n| n.chars.clone()).collect();
    let taxa: Vec<Vec<usize>> = tree.nodes.iter().map(|n| n.taxa.clone()).collect();
    compact_tree(&mut tree);
    assert_eq!(lives, tree.nodes.iter().map(|n| n.live).collect::<Vec<_>>());
    assert_eq!(parents, tree.nodes.iter().map(|n| n.parent).collect::<Vec<_>>());
    assert_eq!(chars, tree.nodes.iter().map(|n| n.chars.clone()).collect::<Vec<_>>());
    assert_eq!(taxa, tree.nodes.iter().map(|n| n.taxa.clone()).collect::<Vec<_>>());
}

#[test]
fn taxon_paths_match_rows() {
    // each taxon's root path must carry exactly the characters of its row
    let mat = vec![vec![1, 1, 0], vec![1, 0, 0], vec![0, 0, 1]];
    let ord = character_order(&mat);
    assert!(is_laminar(&mat, &ord));
    let (tree, placement) = build_tree(&mat, &ord);
    assert_eq!(placement.len(), 3);
    for (i, row) in mat.iter().enumerate() {
        let mut on_path = vec![false; 3];
        let mut n = placement[i];
        while n != 0 {
            for &c in tree.nodes[n].chars.iter() {
                on_path[c] = true;
            }
            n = tree.nodes[n].parent;
        }
        for (j, &cell) in row.iter().enumerate() {
            assert_eq!(on_path[j], cell == 1, "taxon {} character {}", i, j);
        }
    }
}

#[test]
fn single_ambiguous_cell_enumerates_in_order() {
    let mat = vec![vec![1, 0], vec![1, 2]];
    let (feasible, base) = resolve_ambiguities(&mat, false);
    // all four completions are laminar here; the first two fill the cell
    // with 0, the last two with 1
    assert_eq!(feasible.len(), 4);
    assert_eq!(feasible[0].matrix(), &vec![vec![1, 0], vec![1, 0]]);
    assert_eq!(feasible[1].matrix(), &vec![vec![1, 0], vec![1, 0]]);
    assert_eq!(feasible[2].matrix(), &vec![vec![1, 0], vec![1, 1]]);
    assert_eq!(feasible[3].matrix(), &vec![vec![1, 0], vec![1, 1]]);
    for per in feasible.iter() {
        assert!(per.perfect());
    }
    // the baseline run leaves the sentinel in place
    assert_eq!(base.matrix(), &mat);
    assert!(base.perfect());
}

#[test]
fn ambiguity_keeps_only_laminar_completions() {
    // filling with 1 recreates the conflicting matrix, filling with 0 does
    // not, so exactly the two completions with a zero first value survive
    let mat = vec![vec![1, 0], vec![0, 1], vec![2, 1]];
    let (feasible, base) = resolve_ambiguities(&mat, false);
    assert_eq!(feasible.len(), 2);
    assert_eq!(feasible[0].matrix(), &vec![vec![1, 0], vec![0, 1], vec![0, 1]]);
    assert_eq!(feasible[1].matrix(), &vec![vec![1, 0], vec![0, 1], vec![0, 1]]);
    // in the baseline the sentinel counts as absent, so it stays laminar
    assert!(base.perfect());
}

#[test]
fn ambiguity_first_and_rest_differ() {
    // two ambiguous cells: the first takes the first value, the other the
    // rest value, so the four completions are pairwise distinguishable
    let mat = vec![vec![2, 0], vec![0, 2]];
    let (feasible, _base) = resolve_ambiguities(&mat, false);
    let expected = [
        vec![vec![0, 0], vec![0, 0]],
        vec![vec![0, 0], vec![0, 1]],
        vec![vec![1, 0], vec![0, 0]],
        vec![vec![1, 0], vec![0, 1]],
    ];
    // every one of the four is laminar: the characters never overlap
    assert_eq!(feasible.len(), 4);
    for (k, per) in feasible.iter().enumerate() {
        assert_eq!(per.matrix(), &expected[k]);
        assert!(per.perfect());
    }
}

#[test]
fn wide_labels_render_in_decimal() {
    // eleven taxa sharing one character: taxon labels reach two digits
    let mat: Vec<Vec<usize>> = (0..11).map(|_| vec![1]).collect();
    let per = PerfectPhylogeny::new(&mat, false);
    assert!(per.perfect());
    let nodes = node_labels(&per);
    assert!(nodes.contains(&"S_10".to_string()));
    assert!(nodes.contains(&"S_11".to_string()));
    assert!(!nodes.contains(&"S_12".to_string()));
}

#[test]
fn identical_rows_share_a_node_and_split() {
    // two taxa with the same character set accumulate on one node, which
    // the leaf-splitting pass then fans out
    let mat = vec![vec![1], vec![1]];
    let plain = PerfectPhylogeny::new(&mat, false);
    assert!(plain.perfect());
    let nodes = node_labels(&plain);
    assert_eq!(plain.tree().node_count(), 4);
    assert!(nodes.contains(&"S_1".to_string()));
    assert!(nodes.contains(&"S_2".to_string()));
    assert!(nodes.contains(&"".to_string()));
    let kept = PerfectPhylogeny::new(&mat, true);
    assert!(node_labels(&kept).contains(&"S_1 S_2".to_string()));
}

#[test]
fn all_zero_rows_hang_from_the_root() {
    // taxa without characters become fresh children of the root; the root
    // label never carries taxa
    let mat = vec![vec![0], vec![0]];
    let per = PerfectPhylogeny::new(&mat, false);
    assert!(per.perfect());
    let nodes = node_labels(&per);
    assert!(nodes.contains(&"Root".to_string()));
    assert!(nodes.contains(&"S_1".to_string()));
    assert!(nodes.contains(&"S_2".to_string()));
    assert_eq!(per.tree().node_count(), 3);
}
