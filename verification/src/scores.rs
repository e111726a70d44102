//! The exact integer terms of each method's score for one pair of nodes.
use vstd::prelude::*;

use crate::graph::Graph;
use crate::method::Method;
use crate::model::GraphModel;
use crate::seqs::lemma_filter_ascending;

verus! {

/// The integer terms from which a pair's score is computed. The scores
/// themselves are floating-point numbers, computed from these terms by the
/// caller.
#[derive(Debug, Clone, PartialEq, Eq)]
pub enum ScoreTerms {
    /// Jaccard: `common / union`, and 0 where `union` is 0.
    Ratio { common: usize, union: usize },
    /// Adamic-Adar: the sum of `1 / ln(d)` over these degrees of the common
    /// neighbors, in ascending order of node index.
    InverseLogDegrees(Vec<usize>),
    /// Resource allocation: the sum of `1 / d` over these degrees of the
    /// common neighbors, in ascending order of node index.
    InverseDegrees(Vec<usize>),
    /// Preferential attachment: the product of the two degrees.
    Product(u128),
    /// Common-neighbor centrality whose centrality term has no weight
    /// (`alpha = 1`): the number of common neighbors.
    CommonCount(usize),
    /// Common-neighbor centrality: `alpha * common + (1 - alpha) * nodes / d`
    /// where the pair is `d` hops apart, and `alpha * common` where no path
    /// joins it.
    Centrality { common: usize, nodes: usize, distance: Option<usize> },
}

/// The degrees of the nodes `ws`, in order.
pub open spec fn degrees_of(m: GraphModel, ws: Seq<usize>) -> Seq<usize> {
    ws.map_values(|w: usize| m.nbrs[w as int].len() as usize)
}

/// The terms of `method`'s score for `u` and `v`; `weighted` says whether the
/// centrality term of common-neighbor centrality has any weight.
pub open spec fn terms_match(
    m: GraphModel,
    method: Method,
    u: int,
    v: int,
    weighted: bool,
    t: ScoreTerms,
) -> bool {
    match method {
        Method::Jaccard => t matches ScoreTerms::Ratio { common, union } && common == m.common(u, v).len()
            && union == m.union_size(u, v),
        Method::AdamicAdar => t matches ScoreTerms::InverseLogDegrees(ds) && ds@ == degrees_of(
            m,
            m.common(u, v),
        ),
        Method::ResourceAllocation => t matches ScoreTerms::InverseDegrees(ds) && ds@ == degrees_of(
            m,
            m.common(u, v),
        ),
        Method::PreferentialAttachment => t matches ScoreTerms::Product(p) && p == m.nbrs[u].len()
            * m.nbrs[v].len(),
        Method::CommonNeighborCentrality => if weighted {
            t matches ScoreTerms::Centrality { common, nodes, distance } && common == m.common(u, v).len()
                && nodes == m.n() && match distance {
                Some(d) => m.hop_distance(u, v, d as nat),
                None => m.unreachable(u, v),
            }
        } else {
            t matches ScoreTerms::CommonCount(c) && c == m.common(u, v).len()
        },
    }
}

impl Graph {
    /// The terms of `method`'s score for the pair `u`, `v`. The hop distance
    /// is searched for only where `weighted` says that it counts.
    pub fn score_terms(&self, method: Method, u: usize, v: usize, weighted: bool) -> (t: ScoreTerms)
        requires
            self@.node(u as int),
            self@.node(v as int),
        ensures
            terms_match(self@, method, u as int, v as int, weighted, t),
    {
        match method {
            Method::Jaccard => {
                let common = self.common_neighbors(u, v).len();
                let union = self.union_size(u, v);
                ScoreTerms::Ratio { common, union }
            },
            Method::AdamicAdar => ScoreTerms::InverseLogDegrees(self.common_degrees(u, v)),
            Method::ResourceAllocation => ScoreTerms::InverseDegrees(self.common_degrees(u, v)),
            Method::PreferentialAttachment => {
                let a = self.degree(u) as u128;
                let b = self.degree(v) as u128;
                assert(a * b <= u64::MAX * u64::MAX) by (nonlinear_arith)
                    requires
                        a <= u64::MAX,
                        b <= u64::MAX,
                ;
                ScoreTerms::Product(a * b)
            },
            Method::CommonNeighborCentrality => {
                let common = self.common_neighbors(u, v).len();
                if weighted {
                    let nodes = self.n_nodes();
                    let distance = self.bfs_dist(u, v);
                    ScoreTerms::Centrality { common, nodes, distance }
                } else {
                    ScoreTerms::CommonCount(common)
                }
            },
        }
    }

    /// The degrees of the common neighbors of `u` and `v`, in ascending order
    /// of node index.
    fn common_degrees(&self, u: usize, v: usize) -> (ds: Vec<usize>)
        requires
            self@.node(u as int),
            self@.node(v as int),
        ensures
            ds@ == degrees_of(self@, self@.common(u as int, v as int)),
    {
        let n = self.n_nodes();
        let ghost m = self@;
        let cn = self.common_neighbors(u, v);
        proof {
            lemma_filter_ascending(m.nbrs[u as int], m.keep(u as int, v as int, v as int));
        }
        let mut ds: Vec<usize> = Vec::new();
        for k in 0..cn.len()
            invariant
                m == self@,
                m.well_formed(),
                m.node(u as int),
                m.node(v as int),
                cn@ == m.common(u as int, v as int),
                forall|x: usize| #[trigger] cn@.contains(x) ==> m.nbrs[u as int].contains(x),
                ds@ == degrees_of(m, cn@.take(k as int)),
        {
            let w = cn[k];
            assert(cn@.contains(w));
            assert(m.node(w as int)) by {
                let j = choose|j: int| 0 <= j < m.nbrs[u as int].len() && m.nbrs[u as int][j] == w;
                assert((m.nbrs[u as int][j] as int) < m.n());
            }
            ds.push(self.degree(w));
            assert(degrees_of(m, cn@.take(k + 1)) =~= degrees_of(m, cn@.take(k as int)).push(
                m.nbrs[w as int].len() as usize,
            ));
        }
        assert(cn@.take(cn@.len() as int) =~= cn@);
        ds
    }
}

} // verus!
