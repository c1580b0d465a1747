//! Perfect-phylogeny construction for binary taxon-by-character matrices.
//!
//! A matrix admits a perfect phylogeny when the taxa carrying any two
//! characters are either disjoint or nested; the library decides that
//! condition (laminarity), synthesizes the phylogenetic tree when it holds,
//! and searches over completions of ambiguous matrix cells.

use vstd::prelude::*;

pub mod builder;
pub mod laminar;
pub mod matrix;
pub mod normalize;
pub mod order;
pub mod phylo;
pub mod render;
pub mod resolve;
pub mod tree;

pub use phylo::PerfectPhylogeny;

verus! {

} // verus!
