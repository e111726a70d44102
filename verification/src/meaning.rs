//! What each score's terms are, stated over the edges of the graph alone.
use vstd::prelude::*;

use crate::laws::law_common_neighbors;
use crate::method::Method;
use crate::model::{lemma_within_mono, GraphModel};
use crate::scores::{terms_match, ScoreTerms};
use crate::order::label_lt;
use crate::text::{is_ws, split_lines, tokens};
use crate::seqs::{ascending, lemma_ascending_set_len, lemma_ascending_unique, lemma_bounded_set_len};

verus! {

/// `c` lists in ascending order the nodes adjacent to both `u` and `v`,
/// other than `u` and `v`.
pub open spec fn lists_common(m: GraphModel, u: int, v: int, c: Seq<usize>) -> bool {
    &&& ascending(c)
    &&& forall|x: usize|
        #[trigger] c.contains(x) <==> m.edge(u, x as int) && m.edge(v, x as int) && x as int != u
            && x as int != v
}

/// `s` lists in ascending order the nodes adjacent to `u` or to `v`.
pub open spec fn lists_union(m: GraphModel, u: int, v: int, s: Seq<usize>) -> bool {
    &&& ascending(s)
    &&& forall|x: usize| #[trigger] s.contains(x) <==> m.edge(u, x as int) || m.edge(v, x as int)
}

/// `ds` holds, entry for entry, the number of neighbors of the nodes `c`.
pub open spec fn degrees_listed(m: GraphModel, c: Seq<usize>, ds: Seq<usize>) -> bool {
    &&& ds.len() == c.len()
    &&& forall|k: int| 0 <= k < c.len() ==> ds[k] as int == #[trigger] m.nbrs[c[k] as int].len()
}

/// `p` is a walk from `u` to `v`: consecutive nodes are joined by edges.
pub open spec fn walk_between(m: GraphModel, p: Seq<int>, u: int, v: int) -> bool {
    &&& p.len() >= 1
    &&& p[0] == u
    &&& p.last() == v
    &&& forall|i: int| 0 <= i < p.len() - 1 ==> m.edge(#[trigger] p[i], p[i + 1])
}

proof fn lemma_common_is_listed(m: GraphModel, u: int, v: int, c: Seq<usize>)
    requires
        m.well_formed(),
        m.node(u),
        m.node(v),
        lists_common(m, u, v, c),
    ensures
        c == m.common(u, v),
{
    law_common_neighbors(m, u, v);
    lemma_ascending_unique(c, m.common(u, v));
}

proof fn lemma_degree_fits(m: GraphModel, x: int)
    requires
        m.well_formed(),
        m.node(x),
    ensures
        m.nbrs[x].len() <= usize::MAX,
{
    lemma_ascending_set_len(m.nbrs[x]);
    assert forall|y: usize| #[trigger] m.nbrs[x].to_set().contains(y) implies (y as int) < m.n() by {
        let k = choose|k: int| 0 <= k < m.nbrs[x].len() && m.nbrs[x][k] == y;
        assert((m.nbrs[x][k] as int) < m.n());
    }
    lemma_bounded_set_len(m.nbrs[x].to_set(), m.n());
}

/// Adamic-Adar and resource allocation list one degree for each common
/// neighbor of `u` and `v`, in ascending order of the neighbors: the number
/// of neighbors of the `k`-th common neighbor is entry `k`.
pub proof fn law_inverse_degree_terms(
    m: GraphModel,
    method: Method,
    u: int,
    v: int,
    weighted: bool,
    t: ScoreTerms,
    c: Seq<usize>,
)
    requires
        m.well_formed(),
        m.node(u),
        m.node(v),
        terms_match(m, method, u, v, weighted, t),
        lists_common(m, u, v, c),
    ensures
        method == Method::AdamicAdar ==> (t matches ScoreTerms::InverseLogDegrees(ds)
            && degrees_listed(m, c, ds@)),
        method == Method::ResourceAllocation ==> (t matches ScoreTerms::InverseDegrees(ds)
            && degrees_listed(m, c, ds@)),
{
    lemma_common_is_listed(m, u, v, c);
    assert forall|k: int| 0 <= k < c.len() implies m.nbrs[c[k] as int].len() <= usize::MAX by {
        assert(c.contains(c[k]));
        lemma_degree_fits(m, c[k] as int);
    }
}

/// The Jaccard terms are the number of common neighbors of `u` and `v`
/// (other than `u` and `v`) and the number of nodes adjacent to either.
pub proof fn law_jaccard_terms(
    m: GraphModel,
    u: int,
    v: int,
    weighted: bool,
    t: ScoreTerms,
    c: Seq<usize>,
    s: Seq<usize>,
)
    requires
        m.well_formed(),
        m.node(u),
        m.node(v),
        terms_match(m, Method::Jaccard, u, v, weighted, t),
        lists_common(m, u, v, c),
        lists_union(m, u, v, s),
    ensures
        t matches ScoreTerms::Ratio { common, union } && common == c.len() && union == s.len(),
{
    lemma_common_is_listed(m, u, v, c);
    lemma_ascending_set_len(s);
    assert(s.to_set() =~= m.nbr_set(u).union(m.nbr_set(v))) by {
        assert forall|x: usize| s.to_set().contains(x) <==> m.nbr_set(u).union(m.nbr_set(v)).contains(x) by {
            if m.nbrs[u].contains(x) {
                let k = choose|k: int| 0 <= k < m.nbrs[u].len() && m.nbrs[u][k] == x;
                assert((m.nbrs[u][k] as int) < m.n());
            }
            if m.nbrs[v].contains(x) {
                let k = choose|k: int| 0 <= k < m.nbrs[v].len() && m.nbrs[v][k] == x;
                assert((m.nbrs[v][k] as int) < m.n());
            }
        }
    }
}

/// The preferential-attachment term is the product of the numbers of
/// neighbors of `u` and `v`.
pub proof fn law_preferential_terms(m: GraphModel, u: int, v: int, weighted: bool, t: ScoreTerms)
    requires
        terms_match(m, Method::PreferentialAttachment, u, v, weighted, t),
    ensures
        t matches ScoreTerms::Product(p) && p == m.nbrs[u].len() * m.nbrs[v].len(),
{
}

/// A walk of `k` edges or fewer reaches what lies within `k` steps.
proof fn lemma_walk_within(m: GraphModel, p: Seq<int>, u: int, v: int, k: nat)
    requires
        walk_between(m, p, u, v),
        p.len() <= k + 1,
    ensures
        m.within(u, k).contains(v),
    decreases p.len(),
{
    if p.len() == 1 {
        assert(m.within(u, 0).contains(u));
        lemma_within_mono(m, u, 0, k);
    } else {
        let q = p.drop_last();
        let x = q.last();
        assert(m.edge(p[p.len() - 2], p[p.len() - 1]));
        assert forall|i: int| 0 <= i < q.len() - 1 implies m.edge(#[trigger] q[i], q[i + 1]) by {
            assert(m.edge(p[i], p[i + 1]));
        }
        lemma_walk_within(m, q, u, x, (k - 1) as nat);
        assert(m.step(m.within(u, (k - 1) as nat)).contains(v));
    }
}

/// What lies within `k` steps is reached by a walk of `k` edges or fewer.
proof fn lemma_walk_of(m: GraphModel, u: int, v: int, k: nat) -> (p: Seq<int>)
    requires
        m.within(u, k).contains(v),
    ensures
        walk_between(m, p, u, v),
        p.len() <= k + 1,
    decreases k,
{
    if k == 0 {
        assert(v == u);
        let p = seq![u];
        assert(p.last() == v);
        p
    } else {
        let w = m.within(u, (k - 1) as nat);
        if w.contains(v) {
            lemma_walk_of(m, u, v, (k - 1) as nat)
        } else {
            let x = choose|x: int| w.contains(x) && #[trigger] m.edge(x, v);
            let q = lemma_walk_of(m, u, x, (k - 1) as nat);
            let p = q.push(v);
            assert forall|i: int| 0 <= i < p.len() - 1 implies m.edge(#[trigger] p[i], p[i + 1]) by {
                if i < q.len() - 1 {
                    assert(m.edge(q[i], q[i + 1]));
                } else {
                    assert(p[i] == x);
                }
            }
            assert(p[0] == u);
            p
        }
    }
}

/// The common-neighbor-centrality terms: the number of common neighbors of
/// `u` and `v`, and, where the centrality term has weight, the number of
/// nodes and the length of a shortest walk from `u` to `v`, which is absent
/// exactly when no walk joins them. Every pair is searched, whatever its
/// number of common neighbors.
pub proof fn law_centrality_terms(
    m: GraphModel,
    u: int,
    v: int,
    weighted: bool,
    t: ScoreTerms,
    c: Seq<usize>,
)
    requires
        m.well_formed(),
        m.node(u),
        m.node(v),
        terms_match(m, Method::CommonNeighborCentrality, u, v, weighted, t),
        lists_common(m, u, v, c),
    ensures
        !weighted ==> (t matches ScoreTerms::CommonCount(k) && k == c.len()),
        weighted ==> (t matches ScoreTerms::Centrality { common, nodes, distance } && common == c.len()
            && nodes == m.n() && (forall|p: Seq<int>|
            #[trigger] walk_between(m, p, u, v) ==> (distance matches Some(d) && d + 1 <= p.len()))
            && (distance matches Some(d) ==> exists|p: Seq<int>|
            #[trigger] walk_between(m, p, u, v) && p.len() == d + 1)),
{
    lemma_common_is_listed(m, u, v, c);
    if weighted {
        let distance = t->distance;
        assert forall|p: Seq<int>| #[trigger] walk_between(m, p, u, v) implies (distance matches Some(d) && d + 1
            <= p.len()) by {
            lemma_walk_within(m, p, u, v, (p.len() - 1) as nat);
            match distance {
                Some(d) => {
                    if d + 1 > p.len() {
                        assert(!m.within(u, (p.len() - 1) as nat).contains(v));
                    }
                },
                None => {
                    assert(!m.within(u, (p.len() - 1) as nat).contains(v));
                },
            }
        }
        match distance {
            Some(d) => {
                let p = lemma_walk_of(m, u, v, d as nat);
                lemma_walk_within(m, p, u, v, (p.len() - 1) as nat);
                if p.len() < d + 1 {
                    assert(!m.within(u, (p.len() - 1) as nat).contains(v));
                }
                assert(walk_between(m, p, u, v) && p.len() == d + 1);
            },
            None => {},
        }
    }
}


/// A text without newline is one line.
pub proof fn law_one_line(s: Seq<char>)
    requires
        forall|i: int| 0 <= i < s.len() ==> s[i] != '\n',
    ensures
        split_lines(s) == seq![s],
    decreases s.len(),
{
    if s.len() > 0 {
        let p = s.drop_last();
        law_one_line(p);
        assert(p.push(s.last()) =~= s);
        assert(seq![p].update(0, p.push(s.last())) =~= seq![s]);
    } else {
        assert(s =~= Seq::<char>::empty());
    }
}

/// The lines of `a`, a newline, then `b` are the lines of `a` followed by
/// those of `b`.
pub proof fn law_lines_split_at_newline(a: Seq<char>, b: Seq<char>)
    ensures
        split_lines(a.push('\n') + b) == split_lines(a) + split_lines(b),
    decreases b.len(),
{
    let s = a.push('\n') + b;
    if b.len() == 0 {
        assert(s =~= a.push('\n'));
        assert(s.drop_last() =~= a);
        assert(split_lines(b) =~= seq![Seq::<char>::empty()]);
        assert(split_lines(a).push(Seq::<char>::empty()) =~= split_lines(a) + split_lines(b));
    } else {
        let b1 = b.drop_last();
        law_lines_split_at_newline(a, b1);
        assert(s.drop_last() =~= a.push('\n') + b1);
        assert(s.last() == b.last());
        let la = split_lines(a);
        let lb = split_lines(b1);
        crate::text::lemma_lines_nonempty(b1);
        if b.last() == '\n' {
            assert((la + lb).push(Seq::<char>::empty()) =~= la + lb.push(Seq::<char>::empty()));
        } else {
            assert((la + lb).update((la + lb).len() - 1, (la + lb).last().push(b.last())) =~= la + lb.update(
                lb.len() - 1,
                lb.last().push(b.last()),
            ));
        }
    }
}

/// A nonempty text without whitespace is one token; an empty text has none.
pub proof fn law_one_token(s: Seq<char>)
    requires
        forall|i: int| 0 <= i < s.len() ==> !is_ws(s[i]),
    ensures
        s.len() == 0 ==> tokens(s) == Seq::<Seq<char>>::empty(),
        s.len() > 0 ==> tokens(s) == seq![s],
    decreases s.len(),
{
    if s.len() > 1 {
        let p = s.drop_last();
        law_one_token(p);
        assert(p.last() == s[s.len() - 2]);
        assert(p.push(s.last()) =~= s);
        assert(seq![p].update(0, p.push(s.last())) =~= seq![s]);
    } else if s.len() == 1 {
        assert(s.drop_last() =~= Seq::<char>::empty());
        assert(tokens(s.drop_last()).len() == 0);
        assert(!is_ws(s.last()));
        assert(tokens(s) == tokens(s.drop_last()).push(seq![s.last()]));
        assert(seq![s.last()] =~= s);
        assert(tokens(s) =~= seq![s]);
    }
}

/// Whitespace separates tokens: the tokens of `a`, a whitespace character
/// `w`, then `b` are the tokens of `a` followed by those of `b`.
pub proof fn law_tokens_split_at_whitespace(a: Seq<char>, w: char, b: Seq<char>)
    requires
        is_ws(w),
    ensures
        tokens(a.push(w) + b) == tokens(a) + tokens(b),
    decreases b.len(),
{
    let s = a.push(w) + b;
    if b.len() == 0 {
        assert(s =~= a.push(w));
        assert(s.drop_last() =~= a);
        assert(tokens(a) + tokens(b) =~= tokens(a));
    } else {
        let b1 = b.drop_last();
        law_tokens_split_at_whitespace(a, w, b1);
        assert(s.drop_last() =~= a.push(w) + b1);
        assert(s.last() == b.last());
        let c = b.last();
        let ta = tokens(a);
        let tb = tokens(b1);
        if !is_ws(c) {
            if b1.len() > 0 {
                assert(s[s.len() - 2] == b1.last());
                assert(b[b.len() - 2] == b1.last());
                if !is_ws(b1.last()) {
                    crate::text::lemma_tokens_nonempty(b1);
                    assert((ta + tb).update((ta + tb).len() - 1, (ta + tb).last().push(c)) =~= ta
                        + tb.update(tb.len() - 1, tb.last().push(c)));
                } else {
                    assert((ta + tb).push(seq![c]) =~= ta + tb.push(seq![c]));
                }
            } else {
                assert(s[s.len() - 2] == w);
                assert(b.len() == 1);
                assert((ta + tb).push(seq![c]) =~= ta + tb.push(seq![c]));
            }
        }
    }
}

/// Labels sort lexicographically: a proper prefix sorts first, and after a
/// common prefix the first differing characters decide.
pub proof fn law_label_order(p: Seq<char>, x: char, q: Seq<char>, y: char, r: Seq<char>)
    ensures
        label_lt(p, p.push(x) + q),
        !label_lt(p.push(x) + q, p),
        x != y ==> (label_lt(p.push(x) + q, p.push(y) + r) <==> x < y),
    decreases p.len(),
{
    let a = p.push(x) + q;
    let b = p.push(y) + r;
    if p.len() == 0 {
        assert(a[0] == x);
        assert(b[0] == y);
    } else {
        let p1 = p.drop_first();
        law_label_order(p1, x, q, y, r);
        assert(a.drop_first() =~= p1.push(x) + q);
        assert(b.drop_first() =~= p1.push(y) + r);
        assert(a[0] == p[0]);
        assert(b[0] == p[0]);
    }
}

} // verus!
