//! Neighborhood-overlap link prediction over an interned undirected graph.
//!
//! An edge-list text is read into a [`Graph`] whose labels are interned to
//! the indices `0..n` in first-seen order. For a pair of nodes the library
//! computes the exact integer terms of each score ([`ScoreTerms`]): common
//! neighbors, neighbor-set unions, degrees and breadth-first hop distances.
use vstd::prelude::*;

pub mod graph;
pub mod laws;
pub mod meaning;
pub mod method;
pub mod model;
pub mod order;
pub mod pairs;
pub mod relabel;
pub mod scores;
pub mod seqs;
pub mod text;

pub use graph::Graph;
pub use method::Method;
pub use pairs::PairError;
pub use scores::ScoreTerms;
pub use text::parse_pairs;

verus! {

} // verus!
