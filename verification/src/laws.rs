//! Properties of the library as a whole.
use vstd::prelude::*;

use crate::method::{method_name, Method};
use crate::model::{
    joins, labels_of, lemma_joins_labelled, lemma_joins_push, lemma_within_mono, GraphModel,
};
use crate::order::{label_lt, lemma_lt_asymmetric, lemma_lt_irreflexive, lemma_lt_transitive};
use crate::pairs::{all_non_edges, pair_lt};
use crate::scores::{terms_match, ScoreTerms};
use crate::seqs::{ascending, lemma_ascending_set_len, lemma_ascending_unique, lemma_filter_ascending};

verus! {

/// An edge list describes one graph only.
pub proof fn law_graph_determined(m1: GraphModel, m2: GraphModel, es: Seq<(Seq<char>, Seq<char>)>)
    requires
        m1.well_formed(),
        m2.well_formed(),
        m1.describes(es),
        m2.describes(es),
    ensures
        m1 == m2,
{
    assert forall|i: int| m1.node(i) implies #[trigger] m1.nbrs[i] == m2.nbrs[i] by {
        assert forall|x: usize| m1.nbrs[i].contains(x) <==> m2.nbrs[i].contains(x) by {
            if m1.nbrs[i].contains(x) {
                let k = choose|k: int| 0 <= k < m1.nbrs[i].len() && m1.nbrs[i][k] == x;
                assert((m1.nbrs[i][k] as int) < m1.n());
                assert(m1.nbrs[i].contains((x as int) as usize));
            }
            if m2.nbrs[i].contains(x) {
                let k = choose|k: int| 0 <= k < m2.nbrs[i].len() && m2.nbrs[i][k] == x;
                assert((m2.nbrs[i][k] as int) < m2.n());
                assert(m2.nbrs[i].contains((x as int) as usize));
            }
        }
        lemma_ascending_unique(m1.nbrs[i], m2.nbrs[i]);
    }
    assert(m1.nbrs =~= m2.nbrs);
}

/// Parallel edges count once: repeating an edge, in either direction, leaves
/// the graph as it is.
pub proof fn law_repeated_edge_ignored(
    m: GraphModel,
    es: Seq<(Seq<char>, Seq<char>)>,
    e: (Seq<char>, Seq<char>),
)
    requires
        m.describes(es),
        joins(es, e.0, e.1),
    ensures
        m.describes(es.push(e)),
{
    lemma_joins_labelled(es, e.0, e.1);
    assert(es.push(e).drop_last() =~= es);
    assert forall|i: int, j: int| m.node(i) && m.node(j) implies (#[trigger] m.nbrs[i].contains(
        j as usize,
    ) <==> i != j && joins(es.push(e), m.labels[i], m.labels[j])) by {
        lemma_joins_push(es, e, m.labels[i], m.labels[j]);
        if e.0 == m.labels[j] && e.1 == m.labels[i] {
            let k = choose|k: int|
                0 <= k < es.len() && ((#[trigger] es[k]).0 == e.0 && es[k].1 == e.1 || es[k].0
                    == e.1 && es[k].1 == e.0);
        }
    }
}

/// Self-loops are dropped: an edge from a node to itself leaves the graph
/// as it is.
pub proof fn law_self_loop_ignored(m: GraphModel, es: Seq<(Seq<char>, Seq<char>)>, a: Seq<char>)
    requires
        m.well_formed(),
        m.describes(es),
        labels_of(es).contains(a),
    ensures
        m.describes(es.push((a, a))),
{
    assert(es.push((a, a)).drop_last() =~= es);
    assert forall|i: int, j: int| m.node(i) && m.node(j) implies (#[trigger] m.nbrs[i].contains(
        j as usize,
    ) <==> i != j && joins(es.push((a, a)), m.labels[i], m.labels[j])) by {
        lemma_joins_push(es, (a, a), m.labels[i], m.labels[j]);
    }
}

/// The common neighbors of `u` and `v` are the nodes adjacent to both,
/// other than `u` and `v`.
pub proof fn law_common_neighbors(m: GraphModel, u: int, v: int)
    requires
        m.well_formed(),
        m.node(u),
        m.node(v),
    ensures
        forall|w: usize|
            #[trigger] m.common(u, v).contains(w) <==> m.edge(u, w as int) && m.edge(v, w as int)
                && w as int != u && w as int != v,
        ascending(m.common(u, v)),
{
    lemma_filter_ascending(m.nbrs[u], m.keep(u, v, v));
    assert forall|w: usize| #[trigger] m.common(u, v).contains(w) implies m.node(w as int) by {
        let k = choose|k: int| 0 <= k < m.nbrs[u].len() && m.nbrs[u][k] == w;
        assert((m.nbrs[u][k] as int) < m.n());
    }
}

/// The common neighbors of `u` and `v` are those of `v` and `u`.
pub proof fn law_common_symmetric(m: GraphModel, u: int, v: int)
    requires
        m.well_formed(),
        m.node(u),
        m.node(v),
    ensures
        m.common(u, v) == m.common(v, u),
{
    law_common_neighbors(m, u, v);
    law_common_neighbors(m, v, u);
    lemma_ascending_unique(m.common(u, v), m.common(v, u));
}

/// The neighbor-set union of `u` and `v` is that of `v` and `u`.
pub proof fn law_union_symmetric(m: GraphModel, u: int, v: int)
    ensures
        m.union_size(u, v) == m.union_size(v, u),
{
    assert(m.nbr_set(u).union(m.nbr_set(v)) =~= m.nbr_set(v).union(m.nbr_set(u)));
}

/// Where `u` and `v` are adjacent, their neighbor-set union holds both.
pub proof fn law_union_holds_adjacent_ends(m: GraphModel, u: int, v: int)
    requires
        m.well_formed(),
        m.edge(u, v),
    ensures
        m.nbr_set(u).union(m.nbr_set(v)).contains(u as usize),
        m.nbr_set(u).union(m.nbr_set(v)).contains(v as usize),
{
    assert(m.edge(v, u));
}

/// Inclusion and exclusion: `|N(u) ∪ N(v)| = deg u + deg v - |N(u) ∩ N(v)|`.
pub proof fn law_union_size(m: GraphModel, u: int, v: int)
    requires
        m.well_formed(),
        m.node(u),
        m.node(v),
    ensures
        m.union_size(u, v) == m.nbrs[u].len() + m.nbrs[v].len() - m.nbr_set(u).intersect(
            m.nbr_set(v),
        ).len(),
{
    lemma_ascending_set_len(m.nbrs[u]);
    lemma_ascending_set_len(m.nbrs[v]);
    vstd::set_lib::lemma_set_intersect_union_lens(m.nbr_set(u), m.nbr_set(v));
}

/// The common neighbors never outnumber the neighbor-set union, so the
/// Jaccard ratio lies between 0 and 1; an empty union has no common neighbor.
pub proof fn law_common_within_union(m: GraphModel, u: int, v: int)
    requires
        m.well_formed(),
        m.node(u),
        m.node(v),
    ensures
        m.common(u, v).len() <= m.union_size(u, v),
{
    law_common_neighbors(m, u, v);
    lemma_ascending_set_len(m.common(u, v));
    let c = m.common(u, v).to_set();
    let un = m.nbr_set(u).union(m.nbr_set(v));
    assert(c.subset_of(un)) by {
        assert forall|w: usize| c.contains(w) implies un.contains(w) by {
            assert(m.common(u, v).contains(w));
        }
    }
    vstd::set_lib::lemma_len_subset(c, un);
}

/// One step from a neighbor of `y`: whatever lies within `k` steps of a
/// neighbor `x` of `y` lies within `k + 1` steps of `y`.
proof fn lemma_within_first_step(m: GraphModel, y: int, x: int, z: int, k: nat)
    requires
        m.edge(y, x),
        m.within(x, k).contains(z),
    ensures
        m.within(y, k + 1).contains(z),
    decreases k,
{
    if k == 0 {
        assert(m.within(y, 0).contains(y));
        assert(m.step(m.within(y, 0)).contains(x));
    } else {
        let w = m.within(x, (k - 1) as nat);
        if w.contains(z) {
            lemma_within_first_step(m, y, x, z, (k - 1) as nat);
        } else {
            let p = choose|p: int| w.contains(p) && #[trigger] m.edge(p, z);
            lemma_within_first_step(m, y, x, p, (k - 1) as nat);
            assert(m.step(m.within(y, k)).contains(z));
        }
    }
}

/// Reaching is symmetric: `v` lies within `k` steps of `u` exactly when `u`
/// lies within `k` steps of `v`.
pub proof fn law_within_symmetric(m: GraphModel, u: int, v: int, k: nat)
    requires
        m.well_formed(),
    ensures
        m.within(u, k).contains(v) <==> m.within(v, k).contains(u),
    decreases k, 1nat,
{
    if k > 0 {
        if m.within(u, k).contains(v) {
            lemma_within_one_way(m, u, v, k);
        }
        if m.within(v, k).contains(u) {
            lemma_within_one_way(m, v, u, k);
        }
    } else {
        assert(m.within(u, 0) =~= set![u]);
        assert(m.within(v, 0) =~= set![v]);
    }
}

proof fn lemma_within_one_way(m: GraphModel, u: int, y: int, k: nat)
    requires
        m.well_formed(),
        k > 0,
        m.within(u, k).contains(y),
    ensures
        m.within(y, k).contains(u),
    decreases k, 0nat,
{
    let w = m.within(u, (k - 1) as nat);
    if w.contains(y) {
        law_within_symmetric(m, u, y, (k - 1) as nat);
        lemma_within_mono(m, y, (k - 1) as nat, k);
    } else {
        let x = choose|x: int| w.contains(x) && #[trigger] m.edge(x, y);
        law_within_symmetric(m, u, x, (k - 1) as nat);
        assert(m.edge(y, x));
        lemma_within_first_step(m, y, x, u, (k - 1) as nat);
    }
}

/// The hop distance is symmetric, and so is being unreachable.
pub proof fn law_distance_symmetric(m: GraphModel, u: int, v: int, d: nat)
    requires
        m.well_formed(),
    ensures
        m.hop_distance(u, v, d) <==> m.hop_distance(v, u, d),
        m.unreachable(u, v) <==> m.unreachable(v, u),
{
    law_within_symmetric(m, u, v, d);
    assert forall|k: nat|
        #![trigger m.within(u, k)]
        #![trigger m.within(v, k)]
        m.within(u, k).contains(v) <==> m.within(v, k).contains(u) by {
        law_within_symmetric(m, u, v, k);
    }
}

/// A pair has at most one hop distance; it is 0 exactly for a node and
/// itself, and 1 for two adjacent nodes.
pub proof fn law_distance_values(m: GraphModel, u: int, v: int, d1: nat, d2: nat)
    requires
        m.well_formed(),
    ensures
        m.hop_distance(u, v, d1) && m.hop_distance(u, v, d2) ==> d1 == d2,
        m.hop_distance(u, v, 0) <==> u == v,
        m.edge(u, v) ==> m.hop_distance(u, v, 1),
        m.hop_distance(u, v, d1) ==> !m.unreachable(u, v),
{
    if m.edge(u, v) {
        assert(m.within(u, 0).contains(u));
        assert(m.step(m.within(u, 0)).contains(v));
        assert(u != v) by {
            assert(m.nbrs[u].contains(v as usize));
            let k = choose|k: int| 0 <= k < m.nbrs[u].len() && m.nbrs[u][k] == v as usize;
        }
        assert forall|k: nat| k < 1 implies !(#[trigger] m.within(u, k)).contains(v) by {}
    }
    assert(m.within(u, 0) =~= set![u]);
}

/// Every method scores `u`, `v` as it scores `v`, `u`.
pub proof fn law_terms_symmetric(
    m: GraphModel,
    method: Method,
    u: int,
    v: int,
    weighted: bool,
    t: ScoreTerms,
)
    requires
        m.well_formed(),
        m.node(u),
        m.node(v),
    ensures
        terms_match(m, method, u, v, weighted, t) <==> terms_match(m, method, v, u, weighted, t),
{
    law_common_symmetric(m, u, v);
    law_union_symmetric(m, u, v);
    assert(m.nbrs[u].len() * m.nbrs[v].len() == m.nbrs[v].len() * m.nbrs[u].len()) by (nonlinear_arith);
    assert forall|d: nat| m.hop_distance(u, v, d) <==> #[trigger] m.hop_distance(v, u, d) by {
        law_distance_symmetric(m, u, v, d);
    }
    law_distance_symmetric(m, u, v, 0);
}

/// The default pairs name each unordered pair at most once.
pub proof fn law_non_edges_once(m: GraphModel, ps: Seq<(usize, usize)>, a: int, b: int)
    requires
        all_non_edges(m, ps),
        0 <= a < b < ps.len(),
    ensures
        ps[a] != ps[b],
        ps[a] != (ps[b].1, ps[b].0),
{
    let p = ps[a];
    let q = ps[b];
    assert(pair_lt(m, p, q));
    lemma_lt_irreflexive(m.labels[p.0 as int]);
    lemma_lt_irreflexive(m.labels[p.1 as int]);
    if p == (q.1, q.0) {
        lemma_lt_asymmetric(m.labels[q.0 as int], m.labels[q.1 as int]);
    }
}

/// Distinct methods have distinct names, so each name parses back to its
/// method.
pub proof fn law_method_names_distinct(a: Method, b: Method)
    ensures
        method_name(a) == method_name(b) ==> a == b,
{
    reveal_strlit("jaccard");
    reveal_strlit("adamic-adar");
    reveal_strlit("resource-allocation");
    reveal_strlit("preferential-attachment");
    reveal_strlit("common-neighbor-centrality");
    if method_name(a) == method_name(b) && a != b {
        assert(method_name(a).len() == method_name(b).len());
        assert(method_name(a)[0] == method_name(b)[0]);
        assert(method_name(a)[1] == method_name(b)[1]);
    }
}


proof fn lemma_pair_lt_order(m: GraphModel, p: (usize, usize), q: (usize, usize), r: (usize, usize))
    ensures
        !pair_lt(m, p, p),
        !(pair_lt(m, p, q) && pair_lt(m, q, p)),
        pair_lt(m, p, q) && pair_lt(m, q, r) ==> pair_lt(m, p, r),
{
    let (a, b, c) = (m.labels[p.0 as int], m.labels[q.0 as int], m.labels[r.0 as int]);
    let (x, y, z) = (m.labels[p.1 as int], m.labels[q.1 as int], m.labels[r.1 as int]);
    lemma_lt_irreflexive(a);
    lemma_lt_irreflexive(x);
    lemma_lt_asymmetric(a, b);
    lemma_lt_asymmetric(x, y);
    if pair_lt(m, p, q) && pair_lt(m, q, r) {
        if label_lt(a, b) && label_lt(b, c) {
            lemma_lt_transitive(a, b, c);
        }
        if label_lt(x, y) && label_lt(y, z) {
            lemma_lt_transitive(x, y, z);
        }
    }
}

proof fn lemma_pairs_sorted_unique(m: GraphModel, p: Seq<(usize, usize)>, q: Seq<(usize, usize)>)
    requires
        forall|a: int, b: int| 0 <= a < b < p.len() ==> pair_lt(m, #[trigger] p[a], #[trigger] p[b]),
        forall|a: int, b: int| 0 <= a < b < q.len() ==> pair_lt(m, #[trigger] q[a], #[trigger] q[b]),
        forall|x: (usize, usize)| p.contains(x) <==> q.contains(x),
    ensures
        p == q,
    decreases p.len(),
{
    if p.len() == 0 {
        if q.len() > 0 {
            assert(q.contains(q[0]));
        }
        assert(p =~= q);
    } else if q.len() == 0 {
        assert(p.contains(p[0]));
    } else {
        assert(p.contains(p[0]));
        assert(q.contains(q[0]));
        let i = choose|i: int| 0 <= i < p.len() && p[i] == q[0];
        let j = choose|j: int| 0 <= j < q.len() && q[j] == p[0];
        lemma_pair_lt_order(m, p[0], q[0], p[0]);
        lemma_pair_lt_order(m, q[0], p[0], q[0]);
        if i > 0 && j > 0 {
            assert(pair_lt(m, p[0], p[i]));
            assert(pair_lt(m, q[0], q[j]));
        } else if i > 0 {
            assert(pair_lt(m, p[0], p[i]));
        } else if j > 0 {
            assert(pair_lt(m, q[0], q[j]));
        }
        assert(p[0] == q[0]);
        let p1 = p.drop_first();
        let q1 = q.drop_first();
        assert forall|x: (usize, usize)| p1.contains(x) <==> q1.contains(x) by {
            if p1.contains(x) {
                let k = choose|k: int| 0 <= k < p1.len() && p1[k] == x;
                assert(p[k + 1] == x);
                assert(pair_lt(m, p[0], p[k + 1]));
                lemma_pair_lt_order(m, x, x, x);
                assert(q.contains(x));
                let t = choose|t: int| 0 <= t < q.len() && q[t] == x;
                assert(t != 0);
                assert(q1[t - 1] == x);
            }
            if q1.contains(x) {
                let k = choose|k: int| 0 <= k < q1.len() && q1[k] == x;
                assert(q[k + 1] == x);
                assert(pair_lt(m, q[0], q[k + 1]));
                lemma_pair_lt_order(m, x, x, x);
                assert(p.contains(x));
                let t = choose|t: int| 0 <= t < p.len() && p[t] == x;
                assert(t != 0);
                assert(p1[t - 1] == x);
            }
        }
        assert forall|a: int, b: int| 0 <= a < b < p1.len() implies pair_lt(m, #[trigger] p1[a], #[trigger] p1[b]) by {
            assert(pair_lt(m, p[a + 1], p[b + 1]));
        }
        assert forall|a: int, b: int| 0 <= a < b < q1.len() implies pair_lt(m, #[trigger] q1[a], #[trigger] q1[b]) by {
            assert(pair_lt(m, q[a + 1], q[b + 1]));
        }
        lemma_pairs_sorted_unique(m, p1, q1);
        assert(p =~= q) by {
            assert forall|k: int| 0 <= k < p.len() implies p[k] == q[k] by {
                if k > 0 {
                    assert(p1[k - 1] == q1[k - 1]);
                }
            }
        }
    }
}

/// The default pairs are determined: there is one list of every non-adjacent
/// pair in ascending order of labels.
pub proof fn law_non_edges_determined(m: GraphModel, p: Seq<(usize, usize)>, q: Seq<(usize, usize)>)
    requires
        m.well_formed(),
        all_non_edges(m, p),
        all_non_edges(m, q),
    ensures
        p == q,
{
    assert forall|x: (usize, usize)| p.contains(x) implies q.contains(x) by {
        let k = choose|k: int| 0 <= k < p.len() && p[k] == x;
        let px = p[k];
        assert(m.node(px.0 as int) && m.node(px.1 as int));
        assert(!m.edge(px.0 as int, px.1 as int));
        assert(q.contains(((px.0 as int) as usize, (px.1 as int) as usize)));
    }
    assert forall|x: (usize, usize)| q.contains(x) implies p.contains(x) by {
        let k = choose|k: int| 0 <= k < q.len() && q[k] == x;
        let qx = q[k];
        assert(m.node(qx.0 as int) && m.node(qx.1 as int));
        assert(!m.edge(qx.0 as int, qx.1 as int));
        assert(p.contains(((qx.0 as int) as usize, (qx.1 as int) as usize)));
    }
    lemma_pairs_sorted_unique(m, p, q);
}

} // verus!
