//! The graph, the default pairs and their score terms depend on the labelled
//! edges alone: not on the order of the lines, the direction in which a line
//! names its edge, or repeated lines.
use vstd::prelude::*;

use crate::laws::{law_common_neighbors, law_non_edges_determined};
use crate::method::Method;
use crate::model::{add_label, joins, labels_of, lemma_add_label_contains, GraphModel};
use crate::pairs::{all_non_edges, pair_lt};
use crate::scores::{terms_match, ScoreTerms};
use crate::seqs::lemma_ascending_set_len;
use crate::text::{edge_list, edges_of_lines, line_ignored, split_lines, tokens};

verus! {

/// `es` holds the edge `e`, in one direction or the other.
pub open spec fn occurs(es: Seq<(Seq<char>, Seq<char>)>, e: (Seq<char>, Seq<char>)) -> bool {
    exists|j: int| 0 <= j < es.len() && (es[j] == e || es[j] == (e.1, e.0))
}

/// The two edge lists name the same edges, whatever their order, direction
/// or repetition.
pub open spec fn same_edges(es1: Seq<(Seq<char>, Seq<char>)>, es2: Seq<(Seq<char>, Seq<char>)>) -> bool {
    &&& forall|k: int| 0 <= k < es1.len() ==> occurs(es2, #[trigger] es1[k])
    &&& forall|k: int| 0 <= k < es2.len() ==> occurs(es1, #[trigger] es2[k])
}

/// The two graphs have the same labels, and edges join the same labels in
/// both; only the indices of the nodes may differ.
pub open spec fn same_labelled_graph(m1: GraphModel, m2: GraphModel) -> bool {
    &&& forall|a: Seq<char>| m1.labels.contains(a) <==> m2.labels.contains(a)
    &&& forall|i1: int, j1: int, i2: int, j2: int|
        #![trigger m1.edge(i1, j1), m2.edge(i2, j2)]
        m1.node(i1) && m1.node(j1) && m2.node(i2) && m2.node(j2) && m1.labels[i1] == m2.labels[i2]
            && m1.labels[j1] == m2.labels[j2] ==> (m1.edge(i1, j1) <==> m2.edge(i2, j2))
}

/// The node of `m2` that carries the label of node `i` of `m1`.
pub open spec fn corr(m1: GraphModel, m2: GraphModel, i: int) -> int {
    m2.labels.index_of(m1.labels[i])
}

/// Whether a line names the edge `e`.
pub open spec fn names_edge(line: Seq<char>, e: (Seq<char>, Seq<char>)) -> bool {
    !line_ignored(line) && tokens(line).len() >= 2 && e == (tokens(line)[0], tokens(line)[1])
}

proof fn lemma_labels_of_endpoints(es: Seq<(Seq<char>, Seq<char>)>, a: Seq<char>)
    ensures
        labels_of(es).contains(a) <==> exists|k: int|
            0 <= k < es.len() && ((#[trigger] es[k]).0 == a || es[k].1 == a),
    decreases es.len(),
{
    if es.len() > 0 {
        let p = es.drop_last();
        let e = es.last();
        lemma_labels_of_endpoints(p, a);
        lemma_add_label_contains(labels_of(p), e.0, a);
        lemma_add_label_contains(add_label(labels_of(p), e.0), e.1, a);
        if exists|k: int| 0 <= k < p.len() && ((#[trigger] p[k]).0 == a || p[k].1 == a) {
            let k = choose|k: int| 0 <= k < p.len() && ((#[trigger] p[k]).0 == a || p[k].1 == a);
            assert(es[k] == p[k]);
        }
        if exists|k: int| 0 <= k < es.len() && ((#[trigger] es[k]).0 == a || es[k].1 == a) {
            let k = choose|k: int| 0 <= k < es.len() && ((#[trigger] es[k]).0 == a || es[k].1 == a);
            if k < es.len() - 1 {
                assert(p[k] == es[k]);
            }
        }
    }
}

/// Edge lists that name the same edges describe the same labelled graph:
/// permuting the lines of an edge list, swapping the two labels of a line,
/// or repeating lines, changes no label and no edge between labels.
pub proof fn law_same_edges_same_graph(
    es1: Seq<(Seq<char>, Seq<char>)>,
    es2: Seq<(Seq<char>, Seq<char>)>,
    m1: GraphModel,
    m2: GraphModel,
)
    requires
        same_edges(es1, es2),
        m1.well_formed(),
        m2.well_formed(),
        m1.describes(es1),
        m2.describes(es2),
    ensures
        same_labelled_graph(m1, m2),
{
    assert forall|a: Seq<char>| m1.labels.contains(a) <==> m2.labels.contains(a) by {
        lemma_labels_of_endpoints(es1, a);
        lemma_labels_of_endpoints(es2, a);
        if m1.labels.contains(a) {
            let k = choose|k: int| 0 <= k < es1.len() && ((#[trigger] es1[k]).0 == a || es1[k].1 == a);
            assert(occurs(es2, es1[k]));
            let j = choose|j: int| 0 <= j < es2.len() && (es2[j] == es1[k] || es2[j] == (es1[k].1, es1[k].0));
            assert(es2[j].0 == a || es2[j].1 == a);
        }
        if m2.labels.contains(a) {
            let k = choose|k: int| 0 <= k < es2.len() && ((#[trigger] es2[k]).0 == a || es2[k].1 == a);
            assert(occurs(es1, es2[k]));
            let j = choose|j: int| 0 <= j < es1.len() && (es1[j] == es2[k] || es1[j] == (es2[k].1, es2[k].0));
            assert(es1[j].0 == a || es1[j].1 == a);
        }
    }
    assert forall|s: Seq<char>, t: Seq<char>| joins(es1, s, t) <==> joins(es2, s, t) by {
        if joins(es1, s, t) {
            let k = choose|k: int|
                0 <= k < es1.len() && ((#[trigger] es1[k]).0 == s && es1[k].1 == t || es1[k].0 == t
                    && es1[k].1 == s);
            assert(occurs(es2, es1[k]));
            let j = choose|j: int| 0 <= j < es2.len() && (es2[j] == es1[k] || es2[j] == (es1[k].1, es1[k].0));
            assert(es2[j].0 == s && es2[j].1 == t || es2[j].0 == t && es2[j].1 == s);
        }
        if joins(es2, s, t) {
            let k = choose|k: int|
                0 <= k < es2.len() && ((#[trigger] es2[k]).0 == s && es2[k].1 == t || es2[k].0 == t
                    && es2[k].1 == s);
            assert(occurs(es1, es2[k]));
            let j = choose|j: int| 0 <= j < es1.len() && (es1[j] == es2[k] || es1[j] == (es2[k].1, es2[k].0));
            assert(es1[j].0 == s && es1[j].1 == t || es1[j].0 == t && es1[j].1 == s);
        }
    }
    assert forall|i1: int, j1: int, i2: int, j2: int|
        #![trigger m1.edge(i1, j1), m2.edge(i2, j2)]
        m1.node(i1) && m1.node(j1) && m2.node(i2) && m2.node(j2) && m1.labels[i1] == m2.labels[i2]
            && m1.labels[j1] == m2.labels[j2] implies (m1.edge(i1, j1) <==> m2.edge(i2, j2)) by {
        assert(m1.nbrs[i1].contains(j1 as usize) <==> i1 != j1 && joins(es1, m1.labels[i1], m1.labels[j1]));
        assert(m2.nbrs[i2].contains(j2 as usize) <==> i2 != j2 && joins(es2, m2.labels[i2], m2.labels[j2]));
        assert(i1 != j1 <==> m1.labels[i1] != m1.labels[j1]);
        assert(i2 != j2 <==> m2.labels[i2] != m2.labels[j2]);
    }
}

proof fn lemma_same_symmetric(m1: GraphModel, m2: GraphModel)
    requires
        same_labelled_graph(m1, m2),
    ensures
        same_labelled_graph(m2, m1),
{
    assert forall|i1: int, j1: int, i2: int, j2: int|
        #![trigger m2.edge(i1, j1), m1.edge(i2, j2)]
        m2.node(i1) && m2.node(j1) && m1.node(i2) && m1.node(j2) && m2.labels[i1] == m1.labels[i2]
            && m2.labels[j1] == m1.labels[j2] implies (m2.edge(i1, j1) <==> m1.edge(i2, j2)) by {
        assert(m1.edge(i2, j2) <==> m2.edge(i1, j1));
    }
}

proof fn lemma_corr(m1: GraphModel, m2: GraphModel, i: int)
    requires
        m2.well_formed(),
        same_labelled_graph(m1, m2),
        m1.node(i),
    ensures
        m2.node(corr(m1, m2, i)),
        m2.labels[corr(m1, m2, i)] == m1.labels[i],
        forall|j: int| m2.node(j) && m2.labels[j] == m1.labels[i] ==> j == corr(m1, m2, i),
{
    assert(m1.labels.contains(m1.labels[i]));
    assert(m2.labels.contains(m1.labels[i]));
    let c = corr(m1, m2, i);
    assert forall|j: int| m2.node(j) && m2.labels[j] == m1.labels[i] implies j == c by {
        assert(m2.labels[j] == m2.labels[c]);
    }
}

/// Corresponding nodes: the node of `m2` labelled as node `i` of `m1`, and back.
proof fn lemma_corr_both(m1: GraphModel, m2: GraphModel, i: int)
    requires
        m1.well_formed(),
        m2.well_formed(),
        same_labelled_graph(m1, m2),
        m1.node(i),
    ensures
        m2.node(corr(m1, m2, i)),
        m2.labels[corr(m1, m2, i)] == m1.labels[i],
        corr(m2, m1, corr(m1, m2, i)) == i,
        forall|j: int| m2.node(j) && m2.labels[j] == m1.labels[i] ==> j == corr(m1, m2, i),
        forall|j: int| m1.node(j) && m1.labels[j] == m1.labels[i] ==> j == i,
{
    lemma_corr(m1, m2, i);
    lemma_same_symmetric(m1, m2);
    lemma_corr(m2, m1, corr(m1, m2, i));
}

proof fn lemma_corr_edge(m1: GraphModel, m2: GraphModel, i: int, j: int)
    requires
        m1.well_formed(),
        m2.well_formed(),
        same_labelled_graph(m1, m2),
        m1.node(i),
        m1.node(j),
    ensures
        m1.edge(i, j) <==> m2.edge(corr(m1, m2, i), corr(m1, m2, j)),
{
    lemma_corr_both(m1, m2, i);
    lemma_corr_both(m1, m2, j);
    let ci = corr(m1, m2, i);
    let cj = corr(m1, m2, j);
    assert(m1.edge(i, j) <==> m2.edge(ci, cj));
}

/// Sets of nodes that correspond node for node have as many elements.
proof fn lemma_corresponding_len(m1: GraphModel, m2: GraphModel, s1: Set<usize>, s2: Set<usize>)
    requires
        m1.well_formed(),
        m2.well_formed(),
        same_labelled_graph(m1, m2),
        s1.finite(),
        forall|w: usize| #[trigger] s1.contains(w) ==> m1.node(w as int),
        forall|x: usize| #[trigger] s2.contains(x) ==> m2.node(x as int),
        forall|w: usize|
            m1.node(w as int) ==> (#[trigger] s1.contains(w) <==> s2.contains(
                corr(m1, m2, w as int) as usize,
            )),
    ensures
        s1.len() == s2.len(),
{
    lemma_same_symmetric(m1, m2);
    let f = |w: usize| corr(m1, m2, w as int) as usize;
    assert forall|a: usize, b: usize| s1.contains(a) && s1.contains(b) && #[trigger] f(a) == #[trigger] f(b) implies a == b by {
        lemma_corr_both(m1, m2, a as int);
        lemma_corr_both(m1, m2, b as int);
    }
    assert(vstd::relations::injective_on(f, s1));
    assert forall|x: usize| #[trigger] s1.map(f).contains(x) <==> s2.contains(x) by {
        if s2.contains(x) {
            let w = corr(m2, m1, x as int);
            lemma_corr_both(m2, m1, x as int);
            lemma_corr_both(m1, m2, w);
            assert(s1.contains(w as usize));
            assert(f(w as usize) == x);
        }
        if s1.map(f).contains(x) {
            let w = choose|w: usize| s1.contains(w) && f(w) == x;
            lemma_corr_both(m1, m2, w as int);
        }
    }
    assert(s1.map(f) =~= s2);
    vstd::set_lib::lemma_map_size(s1, s2, f);
}

/// The two graphs have as many nodes.
proof fn lemma_same_size(m1: GraphModel, m2: GraphModel)
    requires
        m1.well_formed(),
        m2.well_formed(),
        same_labelled_graph(m1, m2),
    ensures
        m1.n() == m2.n(),
{
    assert(m1.labels.no_duplicates());
    assert(m2.labels.no_duplicates());
    m1.labels.unique_seq_to_set();
    m2.labels.unique_seq_to_set();
    assert(m1.labels.to_set() =~= m2.labels.to_set());
}

proof fn lemma_corr_within(m1: GraphModel, m2: GraphModel, u: int, k: nat)
    requires
        m1.well_formed(),
        m2.well_formed(),
        same_labelled_graph(m1, m2),
        m1.node(u),
    ensures
        forall|w: int|
            m1.node(w) ==> (#[trigger] m1.within(u, k).contains(w) <==> m2.within(
                corr(m1, m2, u),
                k,
            ).contains(corr(m1, m2, w))),
    decreases k,
{
    lemma_same_symmetric(m1, m2);
    let cu = corr(m1, m2, u);
    lemma_corr_both(m1, m2, u);
    if k == 0 {
        assert forall|w: int| m1.node(w) implies (#[trigger] m1.within(u, k).contains(w) <==> m2.within(
            cu,
            k,
        ).contains(corr(m1, m2, w))) by {
            lemma_corr_both(m1, m2, w);
        }
    } else {
        lemma_corr_within(m1, m2, u, (k - 1) as nat);
        let w1 = m1.within(u, (k - 1) as nat);
        let w2 = m2.within(cu, (k - 1) as nat);
        assert forall|w: int| m1.node(w) implies (#[trigger] m1.within(u, k).contains(w) <==> m2.within(
            cu,
            k,
        ).contains(corr(m1, m2, w))) by {
            let cw = corr(m1, m2, w);
            lemma_corr_both(m1, m2, w);
            if m1.step(w1).contains(w) {
                let x = choose|x: int| w1.contains(x) && #[trigger] m1.edge(x, w);
                lemma_corr_edge(m1, m2, x, w);
                assert(w2.contains(corr(m1, m2, x)));
                assert(m2.step(w2).contains(cw));
            }
            if m2.step(w2).contains(cw) {
                let y = choose|y: int| w2.contains(y) && #[trigger] m2.edge(y, cw);
                lemma_corr_both(m2, m1, y);
                let x = corr(m2, m1, y);
                lemma_corr_both(m1, m2, x);
                lemma_corr_edge(m1, m2, x, w);
                assert(corr(m1, m2, x) == y);
                assert(w1.contains(x));
                assert(m1.step(w1).contains(w));
            }
        }
    }
}

/// The hop distance, and being unreachable, agree between corresponding pairs.
proof fn lemma_corr_distance(m1: GraphModel, m2: GraphModel, u: int, v: int)
    requires
        m1.well_formed(),
        m2.well_formed(),
        same_labelled_graph(m1, m2),
        m1.node(u),
        m1.node(v),
    ensures
        forall|d: nat|
            #[trigger] m1.hop_distance(u, v, d) <==> m2.hop_distance(corr(m1, m2, u), corr(m1, m2, v), d),
        m1.unreachable(u, v) <==> m2.unreachable(corr(m1, m2, u), corr(m1, m2, v)),
{
    let cu = corr(m1, m2, u);
    let cv = corr(m1, m2, v);
    assert forall|k: nat|
        #![trigger m1.within(u, k)]
        #![trigger m2.within(cu, k)]
        m1.within(u, k).contains(v) <==> m2.within(cu, k).contains(cv) by {
        lemma_corr_within(m1, m2, u, k);
    }
}

/// Corresponding pairs have the same common neighbors count, union size and
/// degrees.
proof fn lemma_corr_counts(m1: GraphModel, m2: GraphModel, u: int, v: int)
    requires
        m1.well_formed(),
        m2.well_formed(),
        same_labelled_graph(m1, m2),
        m1.node(u),
        m1.node(v),
    ensures
        m1.common(u, v).len() == m2.common(corr(m1, m2, u), corr(m1, m2, v)).len(),
        m1.union_size(u, v) == m2.union_size(corr(m1, m2, u), corr(m1, m2, v)),
        m1.nbrs[u].len() == m2.nbrs[corr(m1, m2, u)].len(),
        m1.nbrs[v].len() == m2.nbrs[corr(m1, m2, v)].len(),
{
    let cu = corr(m1, m2, u);
    let cv = corr(m1, m2, v);
    lemma_corr_both(m1, m2, u);
    lemma_corr_both(m1, m2, v);
    lemma_same_symmetric(m1, m2);
    // common neighbors
    law_common_neighbors(m1, u, v);
    law_common_neighbors(m2, cu, cv);
    lemma_ascending_set_len(m1.common(u, v));
    lemma_ascending_set_len(m2.common(cu, cv));
    let c1 = m1.common(u, v).to_set();
    let c2 = m2.common(cu, cv).to_set();
    assert forall|w: usize| #[trigger] c1.contains(w) implies m1.node(w as int) by {
        assert(m1.common(u, v).contains(w));
    }
    assert forall|x: usize| #[trigger] c2.contains(x) implies m2.node(x as int) by {
        assert(m2.common(cu, cv).contains(x));
    }
    assert forall|w: usize| m1.node(w as int) implies (#[trigger] c1.contains(w) <==> c2.contains(
        corr(m1, m2, w as int) as usize,
    )) by {
        let cw = corr(m1, m2, w as int);
        lemma_corr_both(m1, m2, w as int);
        lemma_corr_edge(m1, m2, u, w as int);
        lemma_corr_edge(m1, m2, v, w as int);
        assert(m1.common(u, v).contains(w) <==> m1.edge(u, w as int) && m1.edge(v, w as int) && w as int != u
            && w as int != v);
        assert(m2.common(cu, cv).contains(cw as usize) <==> m2.edge(cu, cw) && m2.edge(cv, cw) && cw != cu
            && cw != cv);
    }
    lemma_corresponding_len(m1, m2, c1, c2);
    // neighbor sets
    assert forall|a: int| m1.node(a) implies #[trigger] m1.nbr_set(a).len() == m2.nbr_set(corr(m1, m2, a)).len()
        && (forall|w: usize| #[trigger] m1.nbr_set(a).contains(w) <==> m1.edge(a, w as int))
        && (forall|x: usize| #[trigger] m2.nbr_set(corr(m1, m2, a)).contains(x) <==> m2.edge(corr(m1, m2, a), x as int)) by {
        let ca = corr(m1, m2, a);
        lemma_corr_both(m1, m2, a);
        let n1 = m1.nbr_set(a);
        let n2 = m2.nbr_set(ca);
        assert forall|w: usize| #[trigger] n1.contains(w) <==> m1.edge(a, w as int) by {
            if n1.contains(w) {
                let k = choose|k: int| 0 <= k < m1.nbrs[a].len() && m1.nbrs[a][k] == w;
                assert((m1.nbrs[a][k] as int) < m1.n());
            }
        }
        assert forall|x: usize| #[trigger] n2.contains(x) <==> m2.edge(ca, x as int) by {
            if n2.contains(x) {
                let k = choose|k: int| 0 <= k < m2.nbrs[ca].len() && m2.nbrs[ca][k] == x;
                assert((m2.nbrs[ca][k] as int) < m2.n());
            }
        }
        assert forall|w: usize| m1.node(w as int) implies (#[trigger] n1.contains(w) <==> n2.contains(
            corr(m1, m2, w as int) as usize,
        )) by {
            lemma_corr_both(m1, m2, w as int);
            lemma_corr_edge(m1, m2, a, w as int);
        }
        lemma_corresponding_len(m1, m2, n1, n2);
    }
    lemma_ascending_set_len(m1.nbrs[u]);
    lemma_ascending_set_len(m1.nbrs[v]);
    lemma_ascending_set_len(m2.nbrs[cu]);
    lemma_ascending_set_len(m2.nbrs[cv]);
    assert(m1.nbr_set(u).len() == m2.nbr_set(cu).len());
    assert(m1.nbr_set(v).len() == m2.nbr_set(cv).len());
    // unions
    let u1 = m1.nbr_set(u).union(m1.nbr_set(v));
    let u2 = m2.nbr_set(cu).union(m2.nbr_set(cv));
    assert forall|w: usize| #[trigger] u1.contains(w) implies m1.node(w as int) by {}
    assert forall|x: usize| #[trigger] u2.contains(x) implies m2.node(x as int) by {}
    assert forall|w: usize| m1.node(w as int) implies (#[trigger] u1.contains(w) <==> u2.contains(
        corr(m1, m2, w as int) as usize,
    )) by {
        lemma_corr_both(m1, m2, w as int);
        lemma_corr_edge(m1, m2, u, w as int);
        lemma_corr_edge(m1, m2, v, w as int);
    }
    lemma_corresponding_len(m1, m2, u1, u2);
}

/// Nodes with the same labels in two same labelled graphs get the same
/// Jaccard, preferential-attachment and common-neighbor-centrality terms.
/// (Adamic-Adar and resource allocation list the common neighbors' degrees
/// in order of node index, which the labels alone do not fix.)
pub proof fn law_terms_by_label(
    m1: GraphModel,
    m2: GraphModel,
    method: Method,
    u1: int,
    v1: int,
    u2: int,
    v2: int,
    weighted: bool,
    t: ScoreTerms,
)
    requires
        m1.well_formed(),
        m2.well_formed(),
        same_labelled_graph(m1, m2),
        m1.node(u1),
        m1.node(v1),
        m2.node(u2),
        m2.node(v2),
        m1.labels[u1] == m2.labels[u2],
        m1.labels[v1] == m2.labels[v2],
        method != Method::AdamicAdar,
        method != Method::ResourceAllocation,
    ensures
        terms_match(m1, method, u1, v1, weighted, t) <==> terms_match(m2, method, u2, v2, weighted, t),
{
    lemma_corr_both(m1, m2, u1);
    lemma_corr_both(m1, m2, v1);
    assert(u2 == corr(m1, m2, u1));
    assert(v2 == corr(m1, m2, v1));
    lemma_corr_counts(m1, m2, u1, v1);
    lemma_corr_distance(m1, m2, u1, v1);
    lemma_same_size(m1, m2);
}

/// The default pairs of two same labelled graphs name the same labels in the
/// same order.
pub proof fn law_non_edges_by_label(
    m1: GraphModel,
    m2: GraphModel,
    p1: Seq<(usize, usize)>,
    p2: Seq<(usize, usize)>,
)
    requires
        m1.well_formed(),
        m2.well_formed(),
        same_labelled_graph(m1, m2),
        all_non_edges(m1, p1),
        all_non_edges(m2, p2),
    ensures
        p1.len() == p2.len(),
        forall|k: int|
            0 <= k < p1.len() ==> m1.labels[(#[trigger] p1[k]).0 as int] == m2.labels[p2[k].0 as int]
                && m1.labels[p1[k].1 as int] == m2.labels[p2[k].1 as int],
{
    lemma_same_symmetric(m1, m2);
    let f = |p: (usize, usize)| (corr(m1, m2, p.0 as int) as usize, corr(m1, m2, p.1 as int) as usize);
    let q = p1.map_values(f);
    assert forall|k: int| 0 <= k < q.len() implies {
        let p = #[trigger] q[k];
        &&& m2.node(p.0 as int)
        &&& m2.node(p.1 as int)
        &&& m2.labels[p.0 as int] == m1.labels[p1[k].0 as int]
        &&& m2.labels[p.1 as int] == m1.labels[p1[k].1 as int]
        &&& crate::order::label_lt(m2.labels[p.0 as int], m2.labels[p.1 as int])
        &&& !m2.edge(p.0 as int, p.1 as int)
    } by {
        let p = p1[k];
        lemma_corr_both(m1, m2, p.0 as int);
        lemma_corr_both(m1, m2, p.1 as int);
        lemma_corr_edge(m1, m2, p.0 as int, p.1 as int);
    }
    assert forall|x: int, y: int|
        m2.node(x) && m2.node(y) && crate::order::label_lt(m2.labels[x], m2.labels[y]) && !#[trigger] m2.edge(x, y)
        implies q.contains((x as usize, y as usize)) by {
        let x1 = corr(m2, m1, x);
        let y1 = corr(m2, m1, y);
        lemma_corr_both(m2, m1, x);
        lemma_corr_both(m2, m1, y);
        lemma_corr_both(m1, m2, x1);
        lemma_corr_both(m1, m2, y1);
        lemma_corr_edge(m1, m2, x1, y1);
        assert(!m1.edge(x1, y1));
        assert(p1.contains((x1 as usize, y1 as usize)));
        let k = choose|k: int| 0 <= k < p1.len() && p1[k] == (x1 as usize, y1 as usize);
        assert(q[k] == (x as usize, y as usize));
    }
    assert forall|a: int, b: int| 0 <= a < b < q.len() implies pair_lt(m2, #[trigger] q[a], #[trigger] q[b]) by {
        assert(pair_lt(m1, p1[a], p1[b]));
        lemma_corr_both(m1, m2, p1[a].0 as int);
        lemma_corr_both(m1, m2, p1[a].1 as int);
        lemma_corr_both(m1, m2, p1[b].0 as int);
        lemma_corr_both(m1, m2, p1[b].1 as int);
    }
    assert(all_non_edges(m2, q));
    law_non_edges_determined(m2, q, p2);
    assert forall|k: int| 0 <= k < p1.len() implies m1.labels[(#[trigger] p1[k]).0 as int] == m2.labels[p2[k].0 as int]
        && m1.labels[p1[k].1 as int] == m2.labels[p2[k].1 as int] by {
        assert(q[k] == p2[k]);
        lemma_corr_both(m1, m2, p1[k].0 as int);
        lemma_corr_both(m1, m2, p1[k].1 as int);
    }
}


/// Every edge of the lines `ls` is named by one of them.
proof fn lemma_edge_from_line(ls: Seq<Seq<char>>, k: int)
    requires
        0 <= k < edges_of_lines(ls).len(),
    ensures
        exists|i: int| 0 <= i < ls.len() && names_edge(#[trigger] ls[i], edges_of_lines(ls)[k]),
    decreases ls.len(),
{
    let p = ls.drop_last();
    let r = edges_of_lines(p);
    if k < r.len() {
        lemma_edge_from_line(p, k);
        let i = choose|i: int| 0 <= i < p.len() && names_edge(#[trigger] p[i], r[k]);
        assert(ls[i] == p[i]);
    } else {
        assert(names_edge(ls[ls.len() - 1], edges_of_lines(ls)[k]));
    }
}

/// Every edge that one of the lines `ls` names is an edge of them.
proof fn lemma_line_to_edge(ls: Seq<Seq<char>>, i: int)
    requires
        0 <= i < ls.len(),
        !line_ignored(ls[i]),
        tokens(ls[i]).len() >= 2,
    ensures
        edges_of_lines(ls).contains((tokens(ls[i])[0], tokens(ls[i])[1])),
    decreases ls.len(),
{
    let e = (tokens(ls[i])[0], tokens(ls[i])[1]);
    let p = ls.drop_last();
    let r = edges_of_lines(p);
    if i < ls.len() - 1 {
        assert(p[i] == ls[i]);
        lemma_line_to_edge(p, i);
        let k = choose|k: int| 0 <= k < r.len() && r[k] == e;
        if !line_ignored(ls.last()) && tokens(ls.last()).len() >= 2 {
            assert(edges_of_lines(ls)[k] == e);
        }
    } else {
        assert(edges_of_lines(ls)[r.len() as int] == e);
    }
}

/// Texts whose lines are the same, in any order and any number of times,
/// name the same edges.
pub proof fn law_lines_rearranged(t1: Seq<char>, t2: Seq<char>)
    requires
        forall|i: int| 0 <= i < split_lines(t1).len() ==> split_lines(t2).contains(#[trigger] split_lines(t1)[i]),
        forall|i: int| 0 <= i < split_lines(t2).len() ==> split_lines(t1).contains(#[trigger] split_lines(t2)[i]),
    ensures
        same_edges(edge_list(t1), edge_list(t2)),
{
    let l1 = split_lines(t1);
    let l2 = split_lines(t2);
    let e1 = edge_list(t1);
    let e2 = edge_list(t2);
    assert forall|k: int| 0 <= k < e1.len() implies occurs(e2, #[trigger] e1[k]) by {
        lemma_edge_from_line(l1, k);
        let i = choose|i: int| 0 <= i < l1.len() && names_edge(#[trigger] l1[i], e1[k]);
        assert(l2.contains(l1[i]));
        let j = choose|j: int| 0 <= j < l2.len() && l2[j] == l1[i];
        lemma_line_to_edge(l2, j);
        let m = choose|m: int| 0 <= m < e2.len() && e2[m] == e1[k];
    }
    assert forall|k: int| 0 <= k < e2.len() implies occurs(e1, #[trigger] e2[k]) by {
        lemma_edge_from_line(l2, k);
        let i = choose|i: int| 0 <= i < l2.len() && names_edge(#[trigger] l2[i], e2[k]);
        assert(l1.contains(l2[i]));
        let j = choose|j: int| 0 <= j < l1.len() && l1[j] == l2[i];
        lemma_line_to_edge(l1, j);
        let m = choose|m: int| 0 <= m < e1.len() && e1[m] == e2[k];
    }
}

/// The graphs of two edge-list texts with the same lines, in any order and
/// any number of times, are the same labelled graph.
pub proof fn law_rearranged_text_same_graph(t1: Seq<char>, t2: Seq<char>, m1: GraphModel, m2: GraphModel)
    requires
        forall|i: int| 0 <= i < split_lines(t1).len() ==> split_lines(t2).contains(#[trigger] split_lines(t1)[i]),
        forall|i: int| 0 <= i < split_lines(t2).len() ==> split_lines(t1).contains(#[trigger] split_lines(t2)[i]),
        m1.well_formed(),
        m2.well_formed(),
        m1.describes(edge_list(t1)),
        m2.describes(edge_list(t2)),
    ensures
        same_labelled_graph(m1, m2),
{
    law_lines_rearranged(t1, t2);
    law_same_edges_same_graph(edge_list(t1), edge_list(t2), m1, m2);
}

} // verus!
