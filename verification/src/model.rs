//! The mathematical model of a graph read from an edge list.
use vstd::prelude::*;

verus! {

/// `ls` with `a` appended unless it already holds it.
pub open spec fn add_label(ls: Seq<Seq<char>>, a: Seq<char>) -> Seq<Seq<char>> {
    if ls.contains(a) {
        ls
    } else {
        ls.push(a)
    }
}

/// The labels that the edge list `es` names, each once, in the order in which
/// they first occur.
pub open spec fn labels_of(es: Seq<(Seq<char>, Seq<char>)>) -> Seq<Seq<char>>
    decreases es.len(),
{
    if es.len() == 0 {
        Seq::empty()
    } else {
        let e = es.last();
        add_label(add_label(labels_of(es.drop_last()), e.0), e.1)
    }
}

/// Whether some edge of `es` joins the labels `a` and `b`, in either direction.
pub open spec fn joins(es: Seq<(Seq<char>, Seq<char>)>, a: Seq<char>, b: Seq<char>) -> bool {
    exists|k: int|
        0 <= k < es.len() && ((#[trigger] es[k]).0 == a && es[k].1 == b || es[k].0 == b && es[k].1
            == a)
}

/// An undirected simple graph: node `i` carries the label `labels[i]`, and
/// `nbrs[i]` lists its neighbors in ascending order.
pub struct GraphModel {
    pub labels: Seq<Seq<char>>,
    pub nbrs: Seq<Seq<usize>>,
}

impl GraphModel {
    /// The number of nodes.
    pub open spec fn n(self) -> int {
        self.labels.len() as int
    }

    /// Whether `i` is a node.
    pub open spec fn node(self, i: int) -> bool {
        0 <= i < self.n()
    }

    /// Whether an edge joins the nodes `i` and `j`.
    pub open spec fn edge(self, i: int, j: int) -> bool {
        self.node(i) && self.node(j) && self.nbrs[i].contains(j as usize)
    }

    /// Labels are distinct, neighbor lists are strictly ascending lists of
    /// other nodes, and edges go both ways.
    pub open spec fn well_formed(self) -> bool {
        &&& self.nbrs.len() == self.labels.len()
        &&& self.n() <= usize::MAX
        &&& forall|i: int, j: int|
            self.node(i) && self.node(j) && #[trigger] self.labels[i] == #[trigger] self.labels[j]
                ==> i == j
        &&& forall|i: int, k: int|
            self.node(i) && 0 <= k < self.nbrs[i].len() ==> (#[trigger] self.nbrs[i][k] as int)
                < self.n() && self.nbrs[i][k] as int != i
        &&& forall|i: int, a: int, b: int|
            self.node(i) && 0 <= a < b < self.nbrs[i].len() ==> #[trigger] self.nbrs[i][a]
                < #[trigger] self.nbrs[i][b]
        &&& forall|i: int, j: int| #[trigger] self.edge(i, j) ==> self.edge(j, i)
    }

    /// This is the graph of the edge list `es`: its nodes are the labels of
    /// `es` in first-seen order, and two distinct nodes are adjacent exactly
    /// when some edge of `es` joins their labels. Parallel edges thus count
    /// once and self-loops not at all.
    pub open spec fn describes(self, es: Seq<(Seq<char>, Seq<char>)>) -> bool {
        &&& self.labels == labels_of(es)
        &&& forall|i: int, j: int|
            self.node(i) && self.node(j) ==> (#[trigger] self.nbrs[i].contains(j as usize) <==> i
                != j && joins(es, self.labels[i], self.labels[j]))
    }

    /// Neighbors of `other` other than `u` and `v`.
    pub open spec fn keep(self, u: int, v: int, other: int) -> spec_fn(usize) -> bool {
        |w: usize| w as int != u && w as int != v && self.nbrs[other].contains(w)
    }

    /// The common neighbors of `u` and `v` other than `u` and `v` themselves,
    /// in ascending order.
    pub open spec fn common(self, u: int, v: int) -> Seq<usize> {
        self.nbrs[u].filter(self.keep(u, v, v))
    }

    /// The set of neighbors of `u`.
    pub open spec fn nbr_set(self, u: int) -> Set<usize> {
        self.nbrs[u].to_set()
    }

    /// The size of the union of the neighbor sets of `u` and `v`; it holds
    /// `u` and `v` themselves where they are adjacent.
    pub open spec fn union_size(self, u: int, v: int) -> nat {
        self.nbr_set(u).union(self.nbr_set(v)).len()
    }

    /// The nodes one edge away from some node of `from`.
    pub open spec fn step(self, from: Set<int>) -> Set<int> {
        Set::new(|y: int| exists|x: int| from.contains(x) && #[trigger] self.edge(x, y))
    }

    /// The nodes at most `k` edges away from `u`.
    pub open spec fn within(self, u: int, k: nat) -> Set<int>
        decreases k,
    {
        if k == 0 {
            set![u]
        } else {
            let w = self.within(u, (k - 1) as nat);
            w.union(self.step(w))
        }
    }

    /// `d` is the hop distance from `u` to `v`: the fewest edges on a path
    /// between them.
    pub open spec fn hop_distance(self, u: int, v: int, d: nat) -> bool {
        &&& self.within(u, d).contains(v)
        &&& forall|k: nat| k < d ==> !(#[trigger] self.within(u, k)).contains(v)
    }

    /// No path joins `u` and `v`.
    pub open spec fn unreachable(self, u: int, v: int) -> bool {
        forall|k: nat| !(#[trigger] self.within(u, k)).contains(v)
    }
}

/// Reaching within `j` steps is reaching within any `k >= j` steps.
pub proof fn lemma_within_mono(m: GraphModel, u: int, j: nat, k: nat)
    requires
        j <= k,
    ensures
        m.within(u, j).subset_of(m.within(u, k)),
    decreases k - j,
{
    if j < k {
        lemma_within_mono(m, u, j, (k - 1) as nat);
    }
}

/// Once a step adds nothing, no later step does.
pub proof fn lemma_within_stable(m: GraphModel, u: int, d: nat, k: nat)
    requires
        m.within(u, d + 1) == m.within(u, d),
        d <= k,
    ensures
        m.within(u, k) == m.within(u, d),
    decreases k - d,
{
    if d < k {
        lemma_within_stable(m, u, d, (k - 1) as nat);
        assert(m.within(u, k) == m.within(u, (k - 1) as nat).union(m.step(m.within(u, (k - 1) as nat))));
    }
}

/// Every node reached in exactly `d + 1` steps is a neighbor of a node
/// reached in exactly `d` steps.
pub proof fn lemma_within_frontier(m: GraphModel, u: int, d: nat, y: int)
    requires
        m.well_formed(),
        m.within(u, d + 1).contains(y),
        !m.within(u, d).contains(y),
    ensures
        exists|x: int|
            #![trigger m.edge(x, y)]
            m.within(u, d).contains(x) && m.edge(x, y) && (d == 0 || !m.within(
                u,
                (d - 1) as nat,
            ).contains(x)),
{
    let w = m.within(u, d);
    assert(m.step(w).contains(y));
    let x = choose|x: int| w.contains(x) && #[trigger] m.edge(x, y);
    if d > 0 && m.within(u, (d - 1) as nat).contains(x) {
        assert(m.step(m.within(u, (d - 1) as nat)).contains(y));
        assert(false);
    }
}

/// All nodes within reach of a node are nodes.
pub proof fn lemma_within_nodes(m: GraphModel, u: int, k: nat, x: int)
    requires
        m.node(u),
        m.within(u, k).contains(x),
    ensures
        m.node(x),
    decreases k,
{
    if k > 0 {
        let w = m.within(u, (k - 1) as nat);
        if w.contains(x) {
            lemma_within_nodes(m, u, (k - 1) as nat, x);
        } else {
            assert(m.step(w).contains(x));
        }
    }
}

/// Adding `x` to `ls` adds `x` and keeps what `ls` held.
pub proof fn lemma_add_label_contains(ls: Seq<Seq<char>>, x: Seq<char>, a: Seq<char>)
    ensures
        add_label(ls, x).contains(a) <==> ls.contains(a) || a == x,
{
    if !ls.contains(x) {
        let l = ls.push(x);
        assert(l[ls.len() as int] == x);
        if ls.contains(a) {
            let i = choose|i: int| 0 <= i < ls.len() && ls[i] == a;
            assert(l[i] == a);
        }
        if l.contains(a) && a != x {
            let i = choose|i: int| 0 <= i < l.len() && l[i] == a;
            assert(ls[i] == a);
        }
    }
}

/// The labels of an edge list keep those of its prefixes.
pub proof fn lemma_labels_of_grows(es: Seq<(Seq<char>, Seq<char>)>, a: Seq<char>)
    requires
        es.len() > 0,
        labels_of(es.drop_last()).contains(a),
    ensures
        labels_of(es).contains(a),
{
    let l0 = labels_of(es.drop_last());
    let l1 = add_label(l0, es.last().0);
    let i = choose|i: int| 0 <= i < l0.len() && l0[i] == a;
    assert(l1[i] == a);
    assert(add_label(l1, es.last().1)[i] == a);
}

/// Every label that an edge of `es` joins is a label of `es`.
pub proof fn lemma_joins_labelled(es: Seq<(Seq<char>, Seq<char>)>, a: Seq<char>, b: Seq<char>)
    requires
        joins(es, a, b),
    ensures
        labels_of(es).contains(a),
        labels_of(es).contains(b),
    decreases es.len(),
{
    let k = choose|k: int|
        0 <= k < es.len() && ((#[trigger] es[k]).0 == a && es[k].1 == b || es[k].0 == b && es[k].1
            == a);
    if k == es.len() - 1 {
        let l0 = labels_of(es.drop_last());
        let l1 = add_label(l0, es.last().0);
        let l2 = add_label(l1, es.last().1);
        if l0.contains(es.last().0) {
        } else {
            assert(l1[l0.len() as int] == es.last().0);
        }
        assert(l1.contains(es.last().0));
        let i = choose|i: int| 0 <= i < l1.len() && l1[i] == es.last().0;
        assert(l2[i] == es.last().0);
        if !l1.contains(es.last().1) {
            assert(l2[l1.len() as int] == es.last().1);
        }
    } else {
        let p = es.drop_last();
        assert(p[k] == es[k]);
        lemma_joins_labelled(p, a, b);
        lemma_labels_of_grows(es, a);
        lemma_labels_of_grows(es, b);
    }
}

/// Appending the edge `e` to `es` joins what `es` joined, and the ends of `e`.
pub proof fn lemma_joins_push(
    es: Seq<(Seq<char>, Seq<char>)>,
    e: (Seq<char>, Seq<char>),
    a: Seq<char>,
    b: Seq<char>,
)
    ensures
        joins(es.push(e), a, b) <==> joins(es, a, b) || (e.0 == a && e.1 == b) || (e.0 == b && e.1
            == a),
{
    let f = es.push(e);
    if joins(es, a, b) {
        let k = choose|k: int|
            0 <= k < es.len() && ((#[trigger] es[k]).0 == a && es[k].1 == b || es[k].0 == b
                && es[k].1 == a);
        assert(f[k] == es[k]);
    }
    if (e.0 == a && e.1 == b) || (e.0 == b && e.1 == a) {
        assert(f[es.len() as int] == e);
    }
    if joins(f, a, b) {
        let k = choose|k: int|
            0 <= k < f.len() && ((#[trigger] f[k]).0 == a && f[k].1 == b || f[k].0 == b && f[k].1
                == a);
        if k < es.len() {
            assert(f[k] == es[k]);
        }
    }
}

} // verus!
