//! The interned undirected graph.
use std::collections::HashSet;

use vstd::hash_map::StringHashMap;
use vstd::prelude::*;

use crate::model::{lemma_within_frontier, lemma_within_mono, lemma_within_stable, add_label, joins, labels_of, lemma_joins_labelled, lemma_joins_push, GraphModel};
use crate::seqs::{trues, lemma_trues_zero, lemma_trues_bound, lemma_trues_set, ascending, lemma_ascending_set_len, lemma_ascending_unique, lemma_bounded_set_len, lemma_filter_ascending};
use crate::text::{chars_of, edge_list, edge_tokens, string_of};

verus! {

broadcast use vstd::std_specs::hash::group_hash_axioms;

/// Inserts `x` into the strictly ascending list `v`, which lacks it.
fn insert_sorted(v: &mut Vec<usize>, x: usize)
    requires
        forall|a: int, b: int| 0 <= a < b < old(v)@.len() ==> old(v)@[a] < old(v)@[b],
        !old(v)@.contains(x),
    ensures
        forall|a: int, b: int| 0 <= a < b < final(v)@.len() ==> final(v)@[a] < final(v)@[b],
        forall|y: usize| final(v)@.contains(y) <==> old(v)@.contains(y) || y == x,
        final(v)@.len() == old(v)@.len() + 1,
{
    let mut pos: usize = 0;
    while pos < v.len() && v[pos] < x
        invariant
            pos <= v@.len(),
            forall|k: int| 0 <= k < pos ==> v@[k] < x,
        decreases v@.len() - pos,
    {
        pos = pos + 1;
    }
    let ghost old_v = v@;
    v.insert(pos, x);
    assert forall|y: usize| v@.contains(y) <==> old_v.contains(y) || y == x by {
        if v@.contains(y) {
            let k = choose|k: int| 0 <= k < v@.len() && v@[k] == y;
            if k < pos {
                assert(old_v[k] == y);
            } else if k > pos {
                assert(old_v[k - 1] == y);
            }
        }
        if old_v.contains(y) {
            let k = choose|k: int| 0 <= k < old_v.len() && old_v[k] == y;
            if k < pos {
                assert(v@[k] == y);
            } else {
                assert(v@[k + 1] == y);
            }
        }
        if y == x {
            assert(v@[pos as int] == x);
        }
    }
    assert forall|a: int, b: int| 0 <= a < b < v@.len() implies v@[a] < v@[b] by {
        if b == pos && a < pos {
            assert(old_v[a] < x);
        }
        if a == pos && b > pos {
            assert(old_v[pos as int] != x) by {
                assert(old_v.contains(old_v[pos as int]));
            }
            if pos < old_v.len() {
                assert(old_v[b - 1] >= old_v[pos as int]);
            }
        }
    }
}

/// Adding the edge `e` to the graph of `es`: intern its ends (`m0` to `m1`),
/// then join them (`m1` to `m2`), gives the graph of `es` followed by `e`.
proof fn lemma_add_edge(
    m0: GraphModel,
    m1: GraphModel,
    m2: GraphModel,
    es: Seq<(Seq<char>, Seq<char>)>,
    e: (Seq<char>, Seq<char>),
    ua: int,
    ub: int,
)
    requires
        m0.describes(es),
        forall|i: int, k: int|
            m0.node(i) && 0 <= k < m0.nbrs[i].len() ==> (#[trigger] m0.nbrs[i][k] as int) < m0.n(),
        m1.labels == labels_of(es.push(e)),
        forall|i: int, j: int|
            m1.node(i) && m1.node(j) && #[trigger] m1.labels[i] == #[trigger] m1.labels[j] ==> i == j,
        m1.node(ua),
        m1.node(ub),
        m1.labels[ua] == e.0,
        m1.labels[ub] == e.1,
        m0.n() <= m1.n() <= usize::MAX,
        forall|i: int| m0.node(i) ==> #[trigger] m1.labels[i] == m0.labels[i],
        forall|i: int| m0.node(i) ==> #[trigger] m1.nbrs[i] == m0.nbrs[i],
        forall|i: int| m1.node(i) && !m0.node(i) ==> #[trigger] m1.nbrs[i].len() == 0,
        m2.labels == m1.labels,
        forall|i: int, j: int|
            m2.node(i) && m2.node(j) ==> (#[trigger] m2.nbrs[i].contains(j as usize) <==> m1.nbrs[i].contains(j as usize)
                || (ua != ub && (i == ua && j == ub || i == ub && j == ua))),
    ensures
        m2.describes(es.push(e)),
{
    let f = es.push(e);
    assert forall|i: int, j: int| m2.node(i) && m2.node(j) implies (#[trigger] m2.nbrs[i].contains(
        j as usize,
    ) <==> i != j && joins(f, m2.labels[i], m2.labels[j])) by {
        let li = m2.labels[i];
        let lj = m2.labels[j];
        lemma_joins_push(es, e, li, lj);
        if joins(es, li, lj) {
            lemma_joins_labelled(es, li, lj);
            assert(m0.labels.contains(li));
            assert(m0.labels.contains(lj));
            let p = choose|p: int| 0 <= p < m0.labels.len() && m0.labels[p] == li;
            let q = choose|q: int| 0 <= q < m0.labels.len() && m0.labels[q] == lj;
            assert(m0.node(p));
            assert(m0.node(q));
            assert(m1.labels[p] == li);
            assert(m1.labels[q] == lj);
            assert(p == i);
            assert(q == j);
        }
        if m0.node(i) && m0.node(j) {
            assert(m1.nbrs[i] == m0.nbrs[i]);
            assert(m0.labels[i] == li);
            assert(m0.labels[j] == lj);
        } else if m0.node(i) {
            assert(m1.nbrs[i] == m0.nbrs[i]);
            if m0.nbrs[i].contains(j as usize) {
                let k = choose|k: int| 0 <= k < m0.nbrs[i].len() && m0.nbrs[i][k] == j as usize;
                assert((m0.nbrs[i][k] as int) < m0.n());
            }
        } else {
            assert(m1.nbrs[i].len() == 0);
        }
        if i == ua && j == ub || i == ub && j == ua {
            assert(ua != ub <==> i != j);
        }
        if (e.0 == li && e.1 == lj) || (e.0 == lj && e.1 == li) {
            assert(i == ua && j == ub || i == ub && j == ua);
        }
    }
}

/// The state of a graph under construction.
struct Builder {
    labels: Vec<String>,
    ids: StringHashMap<usize>,
    adj_sorted: Vec<Vec<usize>>,
    adj_set: Vec<HashSet<usize>>,
}

impl Builder {
    closed spec fn model(&self) -> GraphModel {
        GraphModel {
            labels: self.labels@.map_values(|s: String| s@),
            nbrs: self.adj_sorted@.map_values(|v: Vec<usize>| v@),
        }
    }

    /// The index, the neighbor lists and the neighbor sets agree with the labels.
    closed spec fn wf(&self) -> bool {
        let m = self.model();
        &&& self.adj_sorted@.len() == self.labels@.len()
        &&& self.adj_set@.len() == self.labels@.len()
        &&& forall|k: Seq<char>| #[trigger] self.ids@.contains_key(k) <==> m.labels.contains(k)
        &&& forall|i: int| m.node(i) ==> self.ids@[#[trigger] m.labels[i]] as int == i
        &&& forall|i: int, k: int|
            m.node(i) && 0 <= k < m.nbrs[i].len() ==> (#[trigger] m.nbrs[i][k] as int) < m.n()
                && m.nbrs[i][k] as int != i
        &&& forall|i: int, a: int, b: int|
            m.node(i) && 0 <= a < b < m.nbrs[i].len() ==> #[trigger] m.nbrs[i][a]
                < #[trigger] m.nbrs[i][b]
        &&& forall|i: int, x: usize|
            m.node(i) ==> (self.adj_set@[i]@.contains(x) <==> #[trigger] m.nbrs[i].contains(x))
    }

    proof fn lemma_distinct(&self)
        requires
            self.wf(),
        ensures
            forall|i: int, j: int|
                self.model().node(i) && self.model().node(j) && #[trigger] self.model().labels[i]
                    == #[trigger] self.model().labels[j] ==> i == j,
    {
        let m = self.model();
        assert forall|i: int, j: int|
            m.node(i) && m.node(j) && #[trigger] m.labels[i] == #[trigger] m.labels[j] implies i
            == j by {
            assert(self.ids@[m.labels[i]] as int == i);
            assert(self.ids@[m.labels[j]] as int == j);
        }
    }

    fn new() -> (b: Builder)
        ensures
            b.wf(),
            b.model().labels == Seq::<Seq<char>>::empty(),
    {
        let b = Builder {
            labels: Vec::new(),
            ids: StringHashMap::new(),
            adj_sorted: Vec::new(),
            adj_set: Vec::new(),
        };
        assert(b.model().labels =~= Seq::<Seq<char>>::empty());
        b
    }

    /// The index of the node labelled `tok`, adding the node if it is new.
    fn intern(&mut self, tok: &Vec<char>) -> (id: usize)
        requires
            old(self).wf(),
        ensures
            final(self).wf(),
            final(self).model().labels == add_label(old(self).model().labels, tok@),
            (id as int) < final(self).model().n(),
            final(self).model().labels[id as int] == tok@,
            forall|i: int|
                old(self).model().node(i) ==> #[trigger] final(self).model().nbrs[i] == old(
                    self,
                ).model().nbrs[i],
            forall|i: int|
                final(self).model().node(i) && !old(self).model().node(i)
                    ==> #[trigger] final(self).model().nbrs[i].len() == 0,
    {
        let ghost m0 = self.model();
        let s = string_of(tok);
        match self.ids.get(s.as_str()) {
            Some(id) => {
                let id = *id;
                proof {
                    let k = choose|k: int| 0 <= k < m0.labels.len() && m0.labels[k] == tok@;
                    assert(self.ids@[m0.labels[k]] as int == k);
                }
                id
            },
            None => {
                let id = self.labels.len();
                self.ids.insert(s.clone(), id);
                self.labels.push(s);
                self.adj_sorted.push(Vec::new());
                self.adj_set.push(HashSet::new());
                let ghost m1 = self.model();
                assert(m1.labels =~= m0.labels.push(tok@));
                assert(m1.nbrs =~= m0.nbrs.push(Seq::<usize>::empty()));
                assert forall|k: Seq<char>| #[trigger] self.ids@.contains_key(k) <==> m1.labels.contains(k) by {
                    if m1.labels.contains(k) && k != tok@ {
                        let i = choose|i: int| 0 <= i < m1.labels.len() && m1.labels[i] == k;
                        assert(m0.labels[i] == k);
                    }
                    if m0.labels.contains(k) {
                        let i = choose|i: int| 0 <= i < m0.labels.len() && m0.labels[i] == k;
                        assert(m1.labels[i] == k);
                    }
                    assert(m1.labels[id as int] == tok@);
                }
                assert forall|i: int| m1.node(i) implies self.ids@[#[trigger] m1.labels[i]] as int == i by {
                    if i < id {
                        assert(m0.labels[i] == m1.labels[i]);
                        assert(m0.labels.contains(m0.labels[i]));
                    }
                }
                id
            },
        }
    }

    /// Joins the nodes `a` and `b` by an edge, if they are distinct.
    fn link(&mut self, a: usize, b: usize)
        requires
            old(self).wf(),
            old(self).model().node(a as int),
            old(self).model().node(b as int),
        ensures
            final(self).wf(),
            final(self).model().labels == old(self).model().labels,
            forall|i: int, j: int|
                final(self).model().node(i) && final(self).model().node(j) ==> (
                #[trigger] final(self).model().nbrs[i].contains(j as usize) <==> old(
                    self,
                ).model().nbrs[i].contains(j as usize) || (a != b && (i == a && j == b || i == b
                    && j == a))),
    {
        if a == b {
            return;
        }
        self.link_one(a, b);
        self.link_one(b, a);
    }

    /// Adds `b` to the neighbors of `a`.
    fn link_one(&mut self, a: usize, b: usize)
        requires
            old(self).wf(),
            old(self).model().node(a as int),
            old(self).model().node(b as int),
            a != b,
        ensures
            final(self).wf(),
            final(self).model().labels == old(self).model().labels,
            forall|i: int, j: int|
                final(self).model().node(i) && final(self).model().node(j) ==> (
                #[trigger] final(self).model().nbrs[i].contains(j as usize) <==> old(
                    self,
                ).model().nbrs[i].contains(j as usize) || (i == a && j == b)),
    {
        let ghost m0 = self.model();
        let ghost set0 = self.adj_set@[a as int]@;
        assert(self.adj_sorted@[a as int]@ == m0.nbrs[a as int]);
        assert(forall|x: usize| set0.contains(x) <==> m0.nbrs[a as int].contains(x));
        let fresh = self.adj_set[a].insert(b);
        if fresh {
            assert(forall|p: int, q: int| 0 <= p < q < m0.nbrs[a as int].len() ==> m0.nbrs[a as int][p] < m0.nbrs[a as int][q]);
            insert_sorted(&mut self.adj_sorted[a], b);
        } else {
            assert(m0.nbrs[a as int].contains(b));
        }
        let ghost m1 = self.model();
        assert(m1.labels =~= m0.labels);
        assert forall|i: int| m1.node(i) && i != a implies #[trigger] m1.nbrs[i] == m0.nbrs[i] by {}
        assert forall|x: usize| self.adj_set@[a as int]@.contains(x) <==> #[trigger] m1.nbrs[a as int].contains(x) by {}
        assert forall|x: usize| #[trigger] m1.nbrs[a as int].contains(x) <==> m0.nbrs[a as int].contains(x) || x == b by {}
        assert forall|i: int, j: int| m1.node(i) && m1.node(j) implies (#[trigger] m1.nbrs[i].contains(j as usize)
            <==> m0.nbrs[i].contains(j as usize) || (i == a && j == b)) by {
            assert(m1.n() == self.labels.len());
            if i == a {
                assert(m1.nbrs[a as int].contains(j as usize) <==> m0.nbrs[a as int].contains(j as usize) || j as usize == b);
            } else {
                assert(m1.nbrs[i] == m0.nbrs[i]);
            }
        }
        assert forall|k: int| 0 <= k < m1.nbrs[a as int].len() implies (#[trigger] m1.nbrs[a as int][k] as int) < m1.n()
                && m1.nbrs[a as int][k] as int != a by {
            assert(m1.nbrs[a as int].contains(m1.nbrs[a as int][k]));
            if m1.nbrs[a as int][k] != b {
                let q = choose|q: int| 0 <= q < m0.nbrs[a as int].len() && m0.nbrs[a as int][q] == m1.nbrs[a as int][k];
            }
        }
    }
}

/// An undirected simple graph read from an edge list: labels are interned to
/// the indices `0..n` in first-seen order, parallel edges count once and
/// self-loops are dropped.
pub struct Graph {
    labels: Vec<String>,
    ids: StringHashMap<usize>,
    adj_sorted: Vec<Vec<usize>>,
    adj_set: Vec<HashSet<usize>>,
    deg: Vec<usize>,
}

impl View for Graph {
    type V = GraphModel;

    closed spec fn view(&self) -> GraphModel {
        GraphModel {
            labels: self.labels@.map_values(|s: String| s@),
            nbrs: self.adj_sorted@.map_values(|v: Vec<usize>| v@),
        }
    }
}

impl Graph {
    /// The index, the neighbor sets and the degrees agree with the model,
    /// and the model is well formed.
    #[verifier::type_invariant]
    closed spec fn inv(self) -> bool {
        let m = self@;
        &&& m.well_formed()
        &&& self.adj_sorted@.len() == self.labels@.len()
        &&& self.adj_set@.len() == self.labels@.len()
        &&& self.deg@.len() == self.labels@.len()
        &&& forall|k: Seq<char>| #[trigger] self.ids@.contains_key(k) <==> m.labels.contains(k)
        &&& forall|i: int| m.node(i) ==> self.ids@[#[trigger] m.labels[i]] as int == i
        &&& forall|i: int, x: usize|
            m.node(i) ==> (self.adj_set@[i]@.contains(x) <==> #[trigger] m.nbrs[i].contains(x))
        &&& forall|i: int| m.node(i) ==> self.deg@[i] as int == #[trigger] m.nbrs[i].len()
    }

    /// The graph of the edge-list text `input`: one `u v` edge per line,
    /// string labels; blank lines, `#` comments and lines with a single label
    /// are skipped, tokens after the second are ignored.
    pub fn from_edge_list(input: &str) -> (g: Graph)
        ensures
            g@.well_formed(),
            g@.describes(edge_list(input@)),
    {
        let cs = chars_of(input);
        let es = edge_tokens(&cs);
        let ghost all = edge_list(input@);
        let mut b = Builder::new();
        assert(all.take(0) =~= Seq::<(Seq<char>, Seq<char>)>::empty());
        for k in 0..es.len()
            invariant
                es@.len() == all.len(),
                forall|p: int|
                    0 <= p < es@.len() ==> (#[trigger] es@[p]).0@ == all[p].0 && es@[p].1@
                        == all[p].1,
                b.wf(),
                b.model().describes(all.take(k as int)),
        {
            let ghost m0 = b.model();
            let ghost e = all[k as int];
            proof {
                b.lemma_distinct();
            }
            let ua = b.intern(&es[k].0);
            let ghost mid = b.model();
            let ub = b.intern(&es[k].1);
            let ghost m1 = b.model();
            b.link(ua, ub);
            let ghost m2 = b.model();
            proof {
                assert(all.take(k + 1) =~= all.take(k as int).push(e));
                assert(all.take(k + 1).drop_last() =~= all.take(k as int));
                b.lemma_distinct();
                assert(m1.n() == b.labels.len());
                assert forall|i: int| m0.node(i) implies #[trigger] m1.labels[i] == m0.labels[i] by {
                    assert(mid.labels[i] == m0.labels[i]);
                }
                assert forall|i: int| m0.node(i) implies #[trigger] m1.nbrs[i] == m0.nbrs[i] by {
                    assert(mid.nbrs[i] == m0.nbrs[i]);
                }
                assert forall|i: int| m1.node(i) && !m0.node(i) implies #[trigger] m1.nbrs[i].len() == 0 by {
                    if mid.node(i) {
                        assert(mid.nbrs[i].len() == 0);
                    }
                }
                assert(m1.labels[ua as int] == e.0) by {
                    assert(mid.labels[ua as int] == e.0);
                }
                lemma_add_edge(m0, m1, m2, all.take(k as int), e, ua as int, ub as int);
            }
        }
        assert(all.take(es@.len() as int) =~= all);
        proof {
            b.lemma_distinct();
        }
        let n = b.labels.len();
        let mut deg: Vec<usize> = Vec::new();
        for i in 0..n
            invariant
                n == b.labels@.len(),
                b.wf(),
                deg@.len() == i,
                forall|p: int| 0 <= p < i ==> deg@[p] as int == #[trigger] b.model().nbrs[p].len(),
        {
            assert(b.adj_sorted@[i as int]@ == b.model().nbrs[i as int]);
            deg.push(b.adj_sorted[i].len());
        }
        let ghost m = b.model();
        let g = Graph {
            labels: b.labels,
            ids: b.ids,
            adj_sorted: b.adj_sorted,
            adj_set: b.adj_set,
            deg,
        };
        assert(g@ == m);
        proof {
            assert forall|i: int, j: int| #[trigger] m.edge(i, j) implies m.edge(j, i) by {
                assert(m.nbrs[i].contains(j as usize));
                assert(m.n() <= usize::MAX);
                assert(m.nbrs[j].contains(i as usize));
            }
        }
        g
    }

    /// The number of nodes (and, as of every graph, its model is well formed).
    pub fn n_nodes(&self) -> (n: usize)
        ensures
            n == self@.n(),
            self@.well_formed(),
    {
        proof {
            use_type_invariant(self);
        }
        self.labels.len()
    }

    /// The index of the node labelled `label`, if there is one.
    pub fn id_of(&self, label: &str) -> (r: Option<usize>)
        ensures
            match r {
                Some(i) => self@.node(i as int) && self@.labels[i as int] == label@,
                None => !self@.labels.contains(label@),
            },
    {
        proof {
            use_type_invariant(self);
        }
        match self.ids.get(label) {
            Some(i) => Some(*i),
            None => None,
        }
    }

    /// The label of node `id`.
    pub fn label(&self, id: usize) -> (s: &str)
        requires
            self@.node(id as int),
        ensures
            s@ == self@.labels[id as int],
    {
        self.labels[id].as_str()
    }

    /// The number of neighbors of node `id`.
    pub fn degree(&self, id: usize) -> (d: usize)
        requires
            self@.node(id as int),
        ensures
            d == self@.nbrs[id as int].len(),
    {
        proof {
            use_type_invariant(self);
        }
        self.deg[id]
    }

    /// Whether an edge joins `u` and `v`.
    pub fn adjacent(&self, u: usize, v: usize) -> (b: bool)
        requires
            self@.node(u as int),
            self@.node(v as int),
        ensures
            b == self@.edge(u as int, v as int),
    {
        proof {
            use_type_invariant(self);
        }
        self.adj_set[u].contains(&v)
    }

    /// The common neighbors of `u` and `v`, other than `u` and `v`, in
    /// ascending order. Walks the shorter neighbor list and probes the other
    /// node's neighbor set.
    pub fn common_neighbors(&self, u: usize, v: usize) -> (r: Vec<usize>)
        requires
            self@.node(u as int),
            self@.node(v as int),
        ensures
            r@ == self@.common(u as int, v as int),
    {
        proof {
            use_type_invariant(self);
        }
        let ghost m = self@;
        let (small, big) = if self.adj_sorted[u].len() <= self.adj_sorted[v].len() {
            (u, v)
        } else {
            (v, u)
        };
        let list = &self.adj_sorted[small];
        let ghost keep = m.keep(u as int, v as int, big as int);
        assert(list@ == m.nbrs[small as int]);
        let mut r: Vec<usize> = Vec::new();
        assert(list@.take(0) =~= Seq::<usize>::empty());
        proof {
            reveal(Seq::filter);
        }
        for k in 0..list.len()
            invariant
                list@ == m.nbrs[small as int],
                m.node(big as int),
                self.adj_set@.len() == m.n(),
                forall|x: usize| self.adj_set@[big as int]@.contains(x) <==> m.nbrs[big as int].contains(x),
                keep == m.keep(u as int, v as int, big as int),
                r@ == list@.take(k as int).filter(keep),
        {
            let w = list[k];
            proof {
                list@.take(k as int).lemma_filter_push(w, keep);
                assert(list@.take(k + 1) =~= list@.take(k as int).push(w));
            }
            if w != u && w != v && self.adj_set[big].contains(&w) {
                r.push(w);
            }
        }
        assert(list@.take(list@.len() as int) =~= list@);
        proof {
            if small != u {
                let other = m.keep(u as int, v as int, v as int);
                assert(ascending(m.nbrs[u as int]));
                assert(ascending(m.nbrs[v as int]));
                lemma_filter_ascending(m.nbrs[v as int], keep);
                lemma_filter_ascending(m.nbrs[u as int], other);
                lemma_ascending_unique(r@, m.common(u as int, v as int));
            }
        }
        r
    }

    /// `|N(u) ∪ N(v)|` over the neighbor sets as they are: where `u` and `v`
    /// are adjacent, the union holds both.
    pub fn union_size(&self, u: usize, v: usize) -> (s: usize)
        requires
            self@.node(u as int),
            self@.node(v as int),
        ensures
            s == self@.union_size(u as int, v as int),
    {
        proof {
            use_type_invariant(self);
        }
        let ghost m = self@;
        let (small, big) = if self.adj_sorted[u].len() <= self.adj_sorted[v].len() {
            (u, v)
        } else {
            (v, u)
        };
        let list = &self.adj_sorted[small];
        assert(list@ == m.nbrs[small as int]);
        let ghost outside = |w: usize| !m.nbrs[big as int].contains(w);
        let mut extra: usize = 0;
        proof {
            reveal(Seq::filter);
            assert(list@.take(0) =~= Seq::<usize>::empty());
        }
        for k in 0..list.len()
            invariant
                list@ == m.nbrs[small as int],
                m.node(big as int),
                self.adj_set@.len() == m.n(),
                forall|x: usize| self.adj_set@[big as int]@.contains(x) <==> m.nbrs[big as int].contains(x),
                outside == (|w: usize| !m.nbrs[big as int].contains(w)),
                extra == list@.take(k as int).filter(outside).len(),
                extra <= k,
        {
            let w = list[k];
            proof {
                list@.take(k as int).lemma_filter_push(w, outside);
                assert(list@.take(k + 1) =~= list@.take(k as int).push(w));
            }
            if !self.adj_set[big].contains(&w) {
                extra = extra + 1;
            }
        }
        assert(list@.take(list@.len() as int) =~= list@);
        proof {
            let a = m.nbrs[small as int];
            let b = m.nbrs[big as int];
            let f = a.filter(outside);
            lemma_filter_ascending(a, outside);
            lemma_ascending_set_len(f);
            lemma_ascending_set_len(b);
            let fs = f.to_set();
            let bs = b.to_set();
            assert(fs.disjoint(bs));
            assert(fs + bs =~= m.nbr_set(u as int).union(m.nbr_set(v as int))) by {
                assert forall|x: usize| (fs + bs).contains(x) <==> m.nbr_set(u as int).union(m.nbr_set(v as int)).contains(x) by {
                    if a.contains(x) && !b.contains(x) {
                        assert(f.contains(x));
                    }
                }
            }
            vstd::set_lib::lemma_set_disjoint_lens(fs, bs);
            assert forall|x: usize| #[trigger] (fs + bs).contains(x) implies (x as int) < m.n() by {
                if a.contains(x) {
                    let k = choose|k: int| 0 <= k < a.len() && a[k] == x;
                    assert((a[k] as int) < m.n());
                } else {
                    let k = choose|k: int| 0 <= k < b.len() && b[k] == x;
                    assert((b[k] as int) < m.n());
                }
            }
            lemma_bounded_set_len(fs + bs, m.n());
            assert(m.n() == self.labels.len());
            assert(self.deg@[big as int] as int == b.len());
        }
        self.deg[big] + extra
    }

    /// Marks the unseen neighbors of `x` as seen and queues them on `next`,
    /// unless one of them is `v`, which it reports at once.
    fn expand(
        &self,
        x: usize,
        v: usize,
        seen: &mut Vec<bool>,
        next: &mut Vec<usize>,
        count: &mut usize,
    ) -> (found: bool)
        requires
            self@.node(x as int),
            old(seen)@.len() == self@.n(),
            *old(count) == trues(old(seen)@),
            forall|i: int| 0 <= i < old(next)@.len() ==> self@.node(#[trigger] old(next)@[i] as int),
        ensures
            found == self@.edge(x as int, v as int),
            !found ==> {
                &&& final(seen)@.len() == self@.n()
                &&& *final(count) == trues(final(seen)@)
                &&& *final(count) - *old(count) == final(next)@.len() - old(next)@.len()
                &&& forall|y: int|
                    self@.node(y) ==> (#[trigger] final(seen)@[y] <==> old(seen)@[y] || self@.edge(
                        x as int,
                        y,
                    ))
                &&& forall|y: usize|
                    #[trigger] final(next)@.contains(y) <==> old(next)@.contains(y) || (self@.edge(
                        x as int,
                        y as int,
                    ) && !old(seen)@[y as int])
                &&& forall|i: int|
                    0 <= i < final(next)@.len() ==> self@.node(#[trigger] final(next)@[i] as int)
            },
    {
        proof {
            use_type_invariant(self);
        }
        let ghost m = self@;
        let ghost seen0 = seen@;
        let ghost next0 = next@;
        let ghost count0 = *count;
        let list = &self.adj_sorted[x];
        assert(list@ == m.nbrs[x as int]);
        assert(m.n() == self.labels.len());
        for k in 0..list.len()
            invariant
                list@ == m.nbrs[x as int],
                m == self@,
                m.well_formed(),
                m.node(x as int),
                m.n() == self.labels@.len(),
                seen@.len() == m.n(),
                *count == trues(seen@),
                *count - count0 == next@.len() - next0.len(),
                forall|j: int| 0 <= j < k ==> list@[j] != v,
                forall|y: int|
                    m.node(y) ==> (#[trigger] seen@[y] <==> seen0[y] || exists|j: int|
                        0 <= j < k && list@[j] as int == y),
                forall|y: usize|
                    #[trigger] next@.contains(y) <==> next0.contains(y) || (exists|j: int|
                        0 <= j < k && list@[j] == y) && !seen0[y as int],
                forall|i: int| 0 <= i < next@.len() ==> m.node(#[trigger] next@[i] as int),
        {
            let w = list[k];
            assert((w as int) < m.n() && w as int != x) by {
                assert(m.nbrs[x as int][k as int] == w);
            }
            if w == v {
                assert(m.nbrs[x as int].contains(v));
                return true;
            }
            let ghost seen1 = seen@;
            let ghost next1 = next@;
            if !seen[w] {
                proof {
                    lemma_trues_set(seen@, w as int);
                    lemma_trues_bound(seen@.update(w as int, true));
                    assert(seen@.len() == seen.len());
                }
                seen[w] = true;
                next.push(w);
                *count = *count + 1;
                assert forall|y: usize| #[trigger] next@.contains(y) <==> next1.contains(y) || y == w by {
                    if next@.contains(y) && y != w {
                        let i = choose|i: int| 0 <= i < next@.len() && next@[i] == y;
                        assert(next1[i] == y);
                    }
                    if next1.contains(y) {
                        let i = choose|i: int| 0 <= i < next1.len() && next1[i] == y;
                        assert(next@[i] == y);
                    }
                    assert(next@[next1.len() as int] == w);
                }
                assert(!seen0[w as int]);
            } else {
                assert(seen0[w as int] || exists|j: int| 0 <= j < k && list@[j] as int == w);
            }
            assert forall|y: int| m.node(y) implies (#[trigger] seen@[y] <==> seen0[y] || exists|j: int|
                0 <= j < k + 1 && list@[j] as int == y) by {
                if y == w {
                    assert(list@[k as int] as int == y);
                } else {
                    if exists|j: int| 0 <= j < k + 1 && list@[j] as int == y {
                        let j = choose|j: int| 0 <= j < k + 1 && list@[j] as int == y;
                        assert(j < k);
                    }
                }
            }
            assert forall|y: usize| #[trigger] next@.contains(y) <==> next0.contains(y) || (exists|j: int|
                0 <= j < k + 1 && list@[j] == y) && !seen0[y as int] by {
                if y == w {
                    assert(list@[k as int] == y);
                } else {
                    if exists|j: int| 0 <= j < k + 1 && list@[j] == y {
                        let j = choose|j: int| 0 <= j < k + 1 && list@[j] == y;
                        assert(j < k);
                    }
                }
            }
        }
        proof {
            assert forall|y: int| m.node(y) implies (#[trigger] seen@[y] <==> seen0[y] || m.edge(x as int, y)) by {
                if m.edge(x as int, y) {
                    let j = choose|j: int| 0 <= j < list@.len() && list@[j] == y as usize;
                    assert(list@[j] as int == y);
                }
            }
            assert forall|y: usize| #[trigger] next@.contains(y) <==> next0.contains(y) || (m.edge(
                x as int,
                y as int,
            ) && !seen0[y as int]) by {
                if m.edge(x as int, y as int) {
                    let j = choose|j: int| 0 <= j < list@.len() && list@[j] == y;
                }
                if exists|j: int| 0 <= j < list@.len() && list@[j] == y {
                    let j = choose|j: int| 0 <= j < list@.len() && list@[j] == y;
                    assert(m.nbrs[x as int].contains(y));
                    assert((y as int) < m.n());
                }
            }
            assert(!m.nbrs[x as int].contains(v));
        }
        false
    }

    /// The hop distance from `u` to `v` (the edges on a shortest path), or
    /// `None` where no path joins them. Searches breadth first, one distance
    /// layer at a time, and stops at the first layer that reaches `v`.
    pub fn bfs_dist(&self, u: usize, v: usize) -> (r: Option<usize>)
        requires
            self@.node(u as int),
            self@.node(v as int),
        ensures
            match r {
                Some(d) => self@.hop_distance(u as int, v as int, d as nat),
                None => self@.unreachable(u as int, v as int),
            },
    {
        proof {
            use_type_invariant(self);
        }
        let ghost m = self@;
        if u == v {
            assert(m.within(u as int, 0).contains(v as int));
            return Some(0);
        }
        let n = self.labels.len();
        assert(m.n() == n);
        let mut seen: Vec<bool> = vec![false; n];
        assert(forall|i: int| 0 <= i < n ==> !seen@[i]);
        proof {
            assert(seen@ =~= Seq::new(n as nat, |i: int| false));
            lemma_trues_zero(n as nat);
            lemma_trues_set(seen@, u as int);
        }
        seen[u] = true;
        let mut count: usize = 1;
        let mut frontier: Vec<usize> = Vec::new();
        frontier.push(u);
        let mut d: usize = 0;
        proof {
            lemma_trues_bound(seen@);
            assert forall|y: int| 0 <= y < n implies (seen@[y] <==> m.within(u as int, 0).contains(y)) by {}
            assert forall|y: usize| #[trigger] frontier@.contains(y) implies m.within(u as int, 0).contains(y as int) by {
                assert(frontier@[0] == u);
            }
            assert(frontier@[0] == u);
            assert(frontier@.contains(u));
        }
        loop
            invariant
                m == self@,
                m.well_formed(),
                m.n() == n,
                m.node(u as int),
                m.node(v as int),
                u != v,
                seen@.len() == n,
                count == trues(seen@),
                d < count <= n,
                forall|y: int| 0 <= y < n ==> (seen@[y] <==> m.within(u as int, d as nat).contains(y)),
                forall|i: int| 0 <= i < frontier@.len() ==> m.node(#[trigger] frontier@[i] as int),
                forall|y: usize|
                    #[trigger] frontier@.contains(y) <==> m.within(u as int, d as nat).contains(y as int) && (d
                        == 0 || !m.within(u as int, (d - 1) as nat).contains(y as int)),
                !m.within(u as int, d as nat).contains(v as int),
            decreases n - count,
        {
            let ghost w = m.within(u as int, d as nat);
            let ghost count0 = count;
            let mut next: Vec<usize> = Vec::new();
            for fi in 0..frontier.len()
                invariant
                    m == self@,
                    m.well_formed(),
                    m.n() == n,
                    m.node(v as int),
                    w == m.within(u as int, d as nat),
                    m.node(u as int),
                    !w.contains(v as int),
                    d < count0 <= n,
                    forall|y: usize|
                        #[trigger] frontier@.contains(y) <==> w.contains(y as int) && (d == 0
                            || !m.within(u as int, (d - 1) as nat).contains(y as int)),
                    forall|i: int| 0 <= i < frontier@.len() ==> m.node(#[trigger] frontier@[i] as int),
                    seen@.len() == n,
                    count == trues(seen@),
                    count - count0 == next@.len(),
                    forall|y: int|
                        0 <= y < n ==> (#[trigger] seen@[y] <==> w.contains(y) || exists|i: int|
                            0 <= i < fi && m.edge(frontier@[i] as int, y)),
                    forall|y: usize|
                        #[trigger] next@.contains(y) <==> (exists|i: int|
                            0 <= i < fi && m.edge(frontier@[i] as int, y as int)) && !w.contains(y as int),
                    forall|i: int| 0 <= i < next@.len() ==> m.node(#[trigger] next@[i] as int),
                    forall|i: int| 0 <= i < fi ==> !m.edge(#[trigger] frontier@[i] as int, v as int),
            {
                let x = frontier[fi];
                let ghost seen1 = seen@;
                let ghost next1 = next@;
                if self.expand(x, v, &mut seen, &mut next, &mut count) {
                    proof {
                        assert(frontier@.contains(x));
                        assert(w.contains(x as int));
                        assert(m.step(w).contains(v as int));
                        assert forall|k: nat| k < d + 1 implies !(#[trigger] m.within(u as int, k)).contains(v as int) by {
                            lemma_within_mono(m, u as int, k, d as nat);
                        }
                    }
                    return Some(d + 1);
                }
                proof {
                    assert forall|y: int| 0 <= y < n implies (#[trigger] seen@[y] <==> w.contains(y) || exists|i: int|
                        0 <= i < fi + 1 && m.edge(frontier@[i] as int, y)) by {
                        if exists|i: int| 0 <= i < fi + 1 && m.edge(frontier@[i] as int, y) {
                            let i = choose|i: int| 0 <= i < fi + 1 && m.edge(frontier@[i] as int, y);
                            if i < fi {
                            }
                        }
                        if seen1[y] {
                        }
                    }
                    assert forall|y: usize| #[trigger] next@.contains(y) <==> (exists|i: int|
                        0 <= i < fi + 1 && m.edge(frontier@[i] as int, y as int)) && !w.contains(y as int) by {
                        if exists|i: int| 0 <= i < fi + 1 && m.edge(frontier@[i] as int, y as int) {
                            let i = choose|i: int| 0 <= i < fi + 1 && m.edge(frontier@[i] as int, y as int);
                            if i < fi {
                            }
                        }
                        if m.edge(x as int, y as int) {
                            assert((y as int) < n);
                            assert(seen1[y as int] <==> w.contains(y as int) || exists|i: int|
                                0 <= i < fi && m.edge(frontier@[i] as int, y as int));
                        }
                    }
                }
            }
            // the layer at distance d + 1 is the frontier's unseen neighbors
            proof {
                let w1 = m.within(u as int, (d + 1) as nat);
                assert(w1 == w.union(m.step(w)));
                assert forall|y: int| #[trigger] w1.contains(y) <==> w.contains(y) || exists|i: int|
                    0 <= i < frontier@.len() && m.edge(frontier@[i] as int, y) by {
                    if w1.contains(y) && !w.contains(y) {
                        lemma_within_frontier(m, u as int, d as nat, y);
                        let x = choose|x: int|
                            #![trigger m.edge(x, y)]
                            m.within(u as int, d as nat).contains(x) && m.edge(x, y) && (d == 0
                                || !m.within(u as int, (d - 1) as nat).contains(x));
                        assert(m.node(x));
                        assert(frontier@.contains(x as usize));
                        let i = choose|i: int| 0 <= i < frontier@.len() && frontier@[i] == x as usize;
                        assert(m.edge(frontier@[i] as int, y));
                    }
                    if exists|i: int| 0 <= i < frontier@.len() && m.edge(frontier@[i] as int, y) {
                        let i = choose|i: int| 0 <= i < frontier@.len() && m.edge(frontier@[i] as int, y);
                        assert(frontier@.contains(frontier@[i]));
                        assert(w.contains(frontier@[i] as int));
                        assert(m.step(w).contains(y));
                    }
                }
                assert(!w1.contains(v as int));
            }
            if next.len() == 0 {
                proof {
                    let w1 = m.within(u as int, (d + 1) as nat);
                    assert forall|y: int| #[trigger] w1.contains(y) implies w.contains(y) by {
                        if !w.contains(y) {
                            let i = choose|i: int| 0 <= i < frontier@.len() && m.edge(frontier@[i] as int, y);
                            assert(m.node(y));
                            assert(next@.contains(y as usize));
                        }
                    }
                    assert(w1 =~= w);
                    assert forall|k: nat| !(#[trigger] m.within(u as int, k)).contains(v as int) by {
                        if k <= d {
                            lemma_within_mono(m, u as int, k, d as nat);
                        } else {
                            lemma_within_stable(m, u as int, d as nat, k);
                        }
                    }
                }
                return None;
            }
            proof {
                let w1 = m.within(u as int, (d + 1) as nat);
                assert forall|y: usize| #[trigger] next@.contains(y) <==> w1.contains(y as int) && !w.contains(
                    y as int,
                ) by {}
                assert forall|y: int| 0 <= y < n implies (seen@[y] <==> w1.contains(y)) by {}
                lemma_trues_bound(seen@);
            }
            frontier = next;
            d = d + 1;
        }
    }
}

} // verus!
