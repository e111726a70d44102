//! Choosing the node pairs to score.
use vstd::prelude::*;

use crate::graph::Graph;
use crate::model::GraphModel;
use crate::order::{label_lt, lemma_lt_asymmetric, lemma_lt_irreflexive, sort_by_key};
use crate::text::chars_of;

verus! {

/// A requested pair names a label that is no node of the graph.
#[derive(Debug, Clone, PartialEq, Eq)]
pub enum PairError {
    UnknownNode(String),
}

/// The pair `p` sorts strictly before `q`: by the first node's label, then by
/// the second's.
pub open spec fn pair_lt(m: GraphModel, p: (usize, usize), q: (usize, usize)) -> bool {
    label_lt(m.labels[p.0 as int], m.labels[q.0 as int]) || (m.labels[p.0 as int] == m.labels[q.0 as int]
        && label_lt(m.labels[p.1 as int], m.labels[q.1 as int]))
}

/// `ps` is every unordered pair of distinct, non-adjacent nodes once, the
/// node whose label sorts first first, in ascending order of labels.
pub open spec fn all_non_edges(m: GraphModel, ps: Seq<(usize, usize)>) -> bool {
    &&& forall|k: int|
        0 <= k < ps.len() ==> {
            let p = #[trigger] ps[k];
            &&& m.node(p.0 as int)
            &&& m.node(p.1 as int)
            &&& label_lt(m.labels[p.0 as int], m.labels[p.1 as int])
            &&& !m.edge(p.0 as int, p.1 as int)
        }
    &&& forall|x: int, y: int|
        m.node(x) && m.node(y) && label_lt(m.labels[x], m.labels[y]) && !#[trigger] m.edge(x, y)
            ==> ps.contains((x as usize, y as usize))
    &&& forall|a: int, b: int| 0 <= a < b < ps.len() ==> pair_lt(m, #[trigger] ps[a], #[trigger] ps[b])
}

/// Whether `a` labels a node.
pub open spec fn known(m: GraphModel, a: Seq<char>) -> bool {
    m.labels.contains(a)
}

impl Graph {
    /// The pairs to score, as node indices. Without `pairs`: every unordered
    /// pair of non-adjacent nodes once, ordered as `all_non_edges` says.
    /// With `pairs`: each given pair as it stands, adjacent or not; the first
    /// label, in the order of the pairs, that names no node is the error.
    pub fn select_pairs(&self, pairs: Option<&[(String, String)]>) -> (r: Result<
        Vec<(usize, usize)>,
        PairError,
    >)
        ensures
            match pairs {
                None => r matches Ok(v) && all_non_edges(self@, v@),
                Some(ps) => match r {
                    Ok(v) => v@.len() == ps@.len() && forall|k: int|
                        0 <= k < v@.len() ==> {
                            &&& self@.node((#[trigger] v@[k]).0 as int)
                            &&& self@.node(v@[k].1 as int)
                            &&& self@.labels[v@[k].0 as int] == ps@[k].0@
                            &&& self@.labels[v@[k].1 as int] == ps@[k].1@
                        },
                    Err(PairError::UnknownNode(a)) => exists|k: int|
                        0 <= k < ps@.len() && (forall|j: int|
                            0 <= j < k ==> known(self@, (#[trigger] ps@[j]).0@) && known(
                                self@,
                                ps@[j].1@,
                            )) && if known(self@, ps@[k].0@) {
                            !known(self@, ps@[k].1@) && a@ == ps@[k].1@
                        } else {
                            a@ == ps@[k].0@
                        },
                },
            },
    {
        match pairs {
            None => Ok(self.non_edges()),
            Some(ps) => self.lookup_pairs(ps),
        }
    }

    fn lookup_pairs(&self, ps: &[(String, String)]) -> (r: Result<Vec<(usize, usize)>, PairError>)
        ensures
            match r {
                Ok(v) => v@.len() == ps@.len() && forall|k: int|
                    0 <= k < v@.len() ==> {
                        &&& self@.node((#[trigger] v@[k]).0 as int)
                        &&& self@.node(v@[k].1 as int)
                        &&& self@.labels[v@[k].0 as int] == ps@[k].0@
                        &&& self@.labels[v@[k].1 as int] == ps@[k].1@
                    },
                Err(PairError::UnknownNode(a)) => exists|k: int|
                    0 <= k < ps@.len() && (forall|j: int|
                        0 <= j < k ==> known(self@, (#[trigger] ps@[j]).0@) && known(
                            self@,
                            ps@[j].1@,
                        )) && if known(self@, ps@[k].0@) {
                        !known(self@, ps@[k].1@) && a@ == ps@[k].1@
                    } else {
                        a@ == ps@[k].0@
                    },
            },
    {
        let mut out: Vec<(usize, usize)> = Vec::new();
        for k in 0..ps.len()
            invariant
                out@.len() == k,
                forall|j: int|
                    0 <= j < k ==> {
                        &&& self@.node((#[trigger] out@[j]).0 as int)
                        &&& self@.node(out@[j].1 as int)
                        &&& self@.labels[out@[j].0 as int] == ps@[j].0@
                        &&& self@.labels[out@[j].1 as int] == ps@[j].1@
                    },
        {
            assert forall|j: int| 0 <= j < k implies known(self@, (#[trigger] ps@[j]).0@) && known(
                self@,
                ps@[j].1@,
            ) by {
                assert(self@.labels[out@[j].0 as int] == ps@[j].0@);
                assert(self@.labels[out@[j].1 as int] == ps@[j].1@);
            }
            let a = &ps[k].0;
            let b = &ps[k].1;
            let ua = match self.id_of(a.as_str()) {
                Some(i) => i,
                None => {
                    return Err(PairError::UnknownNode(a.clone()));
                },
            };
            let ub = match self.id_of(b.as_str()) {
                Some(i) => i,
                None => {
                    assert(known(self@, ps@[k as int].0@));
                    return Err(PairError::UnknownNode(b.clone()));
                },
            };
            out.push((ua, ub));
        }
        Ok(out)
    }

    fn non_edges(&self) -> (v: Vec<(usize, usize)>)
        ensures
            all_non_edges(self@, v@),
    {
        let ghost m = self@;
        let n = self.n_nodes();
        let mut keys: Vec<Vec<char>> = Vec::new();
        for i in 0..n
            invariant
                n == m.n(),
                m == self@,
                keys@.len() == i,
                forall|j: int| 0 <= j < i ==> (#[trigger] keys@[j])@ == m.labels[j],
        {
            keys.push(chars_of(self.label(i)));
        }
        let order = sort_by_key(&keys);
        let mut out: Vec<(usize, usize)> = Vec::new();
        let ghost mut idx: Seq<(int, int)> = Seq::empty();
        for a in 0..n
            invariant
                n == m.n(),
                m == self@,
                m.well_formed(),
                keys@.len() == n,
                forall|j: int| 0 <= j < n ==> (#[trigger] keys@[j])@ == m.labels[j],
                order@.len() == n,
                forall|k: int| 0 <= k < n ==> (#[trigger] order@[k] as int) < n,
                forall|x: int| 0 <= x < n ==> #[trigger] order@.contains(x as usize),
                forall|p: int, q: int|
                    0 <= p < q < n ==> label_lt(
                        keys@[#[trigger] order@[p] as int]@,
                        keys@[#[trigger] order@[q] as int]@,
                    ),
                idx.len() == out@.len(),
                forall|k: int|
                    0 <= k < idx.len() ==> {
                        let ij = #[trigger] idx[k];
                        &&& 0 <= ij.0 < ij.1 < n
                        &&& ij.0 < a
                        &&& out@[k] == (order@[ij.0], order@[ij.1])
                        &&& !m.edge(order@[ij.0] as int, order@[ij.1] as int)
                    },
                forall|k1: int, k2: int|
                    0 <= k1 < k2 < idx.len() ==> (#[trigger] idx[k1]).0 < (#[trigger] idx[k2]).0 || (
                    idx[k1].0 == idx[k2].0 && idx[k1].1 < idx[k2].1),
                forall|p: int, q: int|
                    0 <= p < a && p < q < n && !m.edge(order@[p] as int, order@[q] as int)
                        ==> #[trigger] out@.contains((order@[p], order@[q])),
        {
            for b in a + 1..n
                invariant
                    a < n,
                    n == m.n(),
                    m == self@,
                    m.well_formed(),
                    order@.len() == n,
                    forall|k: int| 0 <= k < n ==> (#[trigger] order@[k] as int) < n,
                    idx.len() == out@.len(),
                    forall|k: int|
                        0 <= k < idx.len() ==> {
                            let ij = #[trigger] idx[k];
                            &&& 0 <= ij.0 < ij.1 < n
                            &&& (ij.0 < a || (ij.0 == a && ij.1 < b))
                            &&& out@[k] == (order@[ij.0], order@[ij.1])
                            &&& !m.edge(order@[ij.0] as int, order@[ij.1] as int)
                        },
                    forall|k1: int, k2: int|
                        0 <= k1 < k2 < idx.len() ==> (#[trigger] idx[k1]).0 < (#[trigger] idx[k2]).0
                            || (idx[k1].0 == idx[k2].0 && idx[k1].1 < idx[k2].1),
                    forall|p: int, q: int|
                        (0 <= p < a && p < q < n || p == a && a < q < b) && !m.edge(
                            order@[p] as int,
                            order@[q] as int,
                        ) ==> #[trigger] out@.contains((order@[p], order@[q])),
            {
                let x = order[a];
                let y = order[b];
                assert(forall|p: int, q: int|
                        (0 <= p < a && p < q < n || p == a && a < q < b) && !m.edge(
                            order@[p] as int,
                            order@[q] as int,
                        ) ==> #[trigger] out@.contains((order@[p], order@[q])));
                if !self.adjacent(x, y) {
                    let ghost old_out = out@;
                    let ghost old_idx = idx;
                    out.push((x, y));
                    proof {
                        idx = idx.push((a as int, b as int));
                        assert forall|p: int, q: int|
                            (0 <= p < a && p < q < n || p == a && a < q < b + 1) && !m.edge(
                                order@[p] as int,
                                order@[q] as int,
                            ) implies #[trigger] out@.contains((order@[p], order@[q])) by {
                            if p == a && q == b {
                                assert(out@[old_out.len() as int] == (x, y));
                            } else {
                                assert(old_out.contains((order@[p], order@[q])));
                                let k = choose|k: int| 0 <= k < old_out.len() && old_out[k] == (order@[p], order@[q]);
                                assert(out@[k] == old_out[k]);
                            }
                        }
                        assert forall|k: int| 0 <= k < idx.len() implies {
                            let ij = #[trigger] idx[k];
                            &&& 0 <= ij.0 < ij.1 < n
                            &&& (ij.0 < a || (ij.0 == a && ij.1 < b + 1))
                            &&& out@[k] == (order@[ij.0], order@[ij.1])
                            &&& !m.edge(order@[ij.0] as int, order@[ij.1] as int)
                        } by {
                            if k < old_idx.len() {
                                assert(idx[k] == old_idx[k]);
                                assert(out@[k] == old_out[k]);
                            }
                        }
                        assert forall|k1: int, k2: int| 0 <= k1 < k2 < idx.len() implies (#[trigger] idx[k1]).0
                            < (#[trigger] idx[k2]).0 || (idx[k1].0 == idx[k2].0 && idx[k1].1 < idx[k2].1) by {
                            if k2 < old_idx.len() {
                                assert(idx[k1] == old_idx[k1]);
                                assert(idx[k2] == old_idx[k2]);
                            } else {
                                assert(idx[k1] == old_idx[k1]);
                            }
                        }
                    }
                }
            }
        }
        proof {
            assert forall|k: int| 0 <= k < out@.len() implies {
                let p = #[trigger] out@[k];
                &&& m.node(p.0 as int)
                &&& m.node(p.1 as int)
                &&& label_lt(m.labels[p.0 as int], m.labels[p.1 as int])
                &&& !m.edge(p.0 as int, p.1 as int)
            } by {
                let ij = idx[k];
                assert(label_lt(keys@[order@[ij.0] as int]@, keys@[order@[ij.1] as int]@));
            }
            assert forall|x: int, y: int|
                m.node(x) && m.node(y) && label_lt(m.labels[x], m.labels[y]) && !#[trigger] m.edge(x, y)
                implies out@.contains((x as usize, y as usize)) by {
                assert(order@.contains(x as usize));
                assert(order@.contains(y as usize));
                let p = choose|p: int| 0 <= p < order@.len() && order@[p] == x as usize;
                let q = choose|q: int| 0 <= q < order@.len() && order@[q] == y as usize;
                if p == q {
                    lemma_lt_irreflexive(m.labels[x]);
                } else if q < p {
                    assert(label_lt(keys@[order@[q] as int]@, keys@[order@[p] as int]@));
                    lemma_lt_asymmetric(m.labels[x], m.labels[y]);
                }
                assert(out@.contains((order@[p], order@[q])));
            }
            assert forall|k1: int, k2: int| 0 <= k1 < k2 < out@.len() implies pair_lt(
                m,
                #[trigger] out@[k1],
                #[trigger] out@[k2],
            ) by {
                let i1 = idx[k1];
                let i2 = idx[k2];
                if i1.0 < i2.0 {
                    assert(label_lt(keys@[order@[i1.0] as int]@, keys@[order@[i2.0] as int]@));
                } else {
                    assert(label_lt(keys@[order@[i1.1] as int]@, keys@[order@[i2.1] as int]@));
                }
            }
        }
        out
    }
}

} // verus!
