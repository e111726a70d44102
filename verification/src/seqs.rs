//! Facts about strictly ascending sequences of indices and bounded sets of them.
use vstd::prelude::*;

verus! {

/// `s` is strictly ascending.
pub open spec fn ascending(s: Seq<usize>) -> bool {
    forall|a: int, b: int| 0 <= a < b < s.len() ==> #[trigger] s[a] < #[trigger] s[b]
}

/// Two strictly ascending sequences with the same elements are equal.
pub proof fn lemma_ascending_unique(a: Seq<usize>, b: Seq<usize>)
    requires
        ascending(a),
        ascending(b),
        forall|x: usize| a.contains(x) <==> b.contains(x),
    ensures
        a == b,
    decreases a.len(),
{
    if a.len() == 0 {
        if b.len() > 0 {
            assert(b.contains(b[0]));
        }
        assert(a =~= b);
    } else if b.len() == 0 {
        assert(a.contains(a[0]));
    } else {
        assert(a.contains(a[0]));
        assert(b.contains(b[0]));
        let i = choose|i: int| 0 <= i < a.len() && a[i] == b[0];
        let j = choose|j: int| 0 <= j < b.len() && b[j] == a[0];
        if i > 0 {
            assert(a[0] < a[i]);
        }
        if j > 0 {
            assert(b[0] < b[j]);
        }
        assert(a[0] == b[0]);
        let a1 = a.drop_first();
        let b1 = b.drop_first();
        assert forall|x: usize| a1.contains(x) <==> b1.contains(x) by {
            if a1.contains(x) {
                let k = choose|k: int| 0 <= k < a1.len() && a1[k] == x;
                assert(a[k + 1] == x);
                assert(a[0] < a[k + 1]);
                assert(b.contains(x));
                let m = choose|m: int| 0 <= m < b.len() && b[m] == x;
                assert(m != 0);
                assert(b1[m - 1] == x);
            }
            if b1.contains(x) {
                let k = choose|k: int| 0 <= k < b1.len() && b1[k] == x;
                assert(b[k + 1] == x);
                assert(b[0] < b[k + 1]);
                assert(a.contains(x));
                let m = choose|m: int| 0 <= m < a.len() && a[m] == x;
                assert(m != 0);
                assert(a1[m - 1] == x);
            }
        }
        lemma_ascending_unique(a1, b1);
        assert(a =~= b) by {
            assert forall|k: int| 0 <= k < a.len() implies a[k] == b[k] by {
                if k > 0 {
                    assert(a1[k - 1] == b1[k - 1]);
                }
            }
        }
    }
}

/// Filtering a strictly ascending sequence keeps it strictly ascending, and
/// keeps exactly the elements that pass.
pub proof fn lemma_filter_ascending(s: Seq<usize>, p: spec_fn(usize) -> bool)
    requires
        ascending(s),
    ensures
        ascending(s.filter(p)),
        forall|x: usize| #[trigger] s.filter(p).contains(x) <==> s.contains(x) && p(x),
    decreases s.len(),
{
    reveal(Seq::filter);
    if s.len() > 0 {
        let t = s.drop_last();
        assert forall|a: int, b: int| 0 <= a < b < t.len() implies #[trigger] t[a] < #[trigger] t[b] by {
            assert(s[a] < s[b]);
        }
        lemma_filter_ascending(t, p);
        let f = t.filter(p);
        assert forall|x: usize| #[trigger] s.filter(p).contains(x) <==> s.contains(x) && p(x) by {
            if s.contains(x) {
                let k = choose|k: int| 0 <= k < s.len() && s[k] == x;
                if k < s.len() - 1 {
                    assert(t[k] == x);
                }
            }
            if t.contains(x) {
                let k = choose|k: int| 0 <= k < t.len() && t[k] == x;
                assert(s[k] == x);
            }
            if p(s.last()) {
                assert(f.push(s.last())[f.len() as int] == s.last());
                if f.contains(x) {
                    let k = choose|k: int| 0 <= k < f.len() && f[k] == x;
                    assert(f.push(s.last())[k] == x);
                }
                if f.push(s.last()).contains(x) && x != s.last() {
                    let k = choose|k: int| 0 <= k < f.len() + 1 && f.push(s.last())[k] == x;
                    assert(f[k] == x);
                }
            }
        }
        if p(s.last()) {
            let g = f.push(s.last());
            assert forall|a: int, b: int| 0 <= a < b < g.len() implies #[trigger] g[a] < #[trigger] g[b] by {
                if b == f.len() {
                    assert(f.contains(f[a]));
                    assert(t.contains(f[a]));
                    let k = choose|k: int| 0 <= k < t.len() && t[k] == f[a];
                    assert(s[k] < s[s.len() - 1]);
                }
            }
        }
    }
}

/// A strictly ascending sequence has as many elements as its set.
pub proof fn lemma_ascending_set_len(s: Seq<usize>)
    requires
        ascending(s),
    ensures
        s.to_set().len() == s.len(),
        s.no_duplicates(),
{
    assert forall|a: int, b: int| 0 <= a < s.len() && 0 <= b < s.len() && a != b implies s[a]
        != s[b] by {
        if a < b {
            assert(s[a] < s[b]);
        } else {
            assert(s[b] < s[a]);
        }
    }
    s.unique_seq_to_set();
}

/// A finite set of indices below `n` has at most `n` elements.
pub proof fn lemma_bounded_set_len(st: Set<usize>, n: int)
    requires
        st.finite(),
        0 <= n,
        forall|x: usize| #[trigger] st.contains(x) ==> (x as int) < n,
    ensures
        st.len() <= n,
    decreases n,
{
    if n == 0 {
        if st.len() > 0 {
            let x = st.choose();
            assert(st.contains(x));
        }
    } else if n - 1 > usize::MAX {
        lemma_bounded_set_len(st, n - 1);
    } else {
        let top = (n - 1) as usize;
        let rest = st.remove(top);
        assert forall|x: usize| #[trigger] rest.contains(x) implies (x as int) < n - 1 by {}
        lemma_bounded_set_len(rest, n - 1);
        if st.contains(top) {
            assert(st =~= rest.insert(top));
        } else {
            assert(st =~= rest);
        }
    }
}


/// The number of `true` entries of `s`.
pub open spec fn trues(s: Seq<bool>) -> nat
    decreases s.len(),
{
    if s.len() == 0 {
        0
    } else {
        trues(s.drop_last()) + if s.last() {
            1nat
        } else {
            0nat
        }
    }
}

pub proof fn lemma_trues_bound(s: Seq<bool>)
    ensures
        trues(s) <= s.len(),
    decreases s.len(),
{
    if s.len() > 0 {
        lemma_trues_bound(s.drop_last());
    }
}

/// A sequence of `false` entries has no `true` entry.
pub proof fn lemma_trues_zero(n: nat)
    ensures
        trues(Seq::new(n, |i: int| false)) == 0,
    decreases n,
{
    if n > 0 {
        assert(Seq::new(n, |i: int| false).drop_last() =~= Seq::new((n - 1) as nat, |i: int| false));
        lemma_trues_zero((n - 1) as nat);
    }
}

/// Setting a `false` entry adds one `true`.
pub proof fn lemma_trues_set(s: Seq<bool>, i: int)
    requires
        0 <= i < s.len(),
        !s[i],
    ensures
        trues(s.update(i, true)) == trues(s) + 1,
    decreases s.len(),
{
    let t = s.update(i, true);
    if i == s.len() - 1 {
        assert(t.drop_last() =~= s.drop_last());
    } else {
        assert(t.drop_last() =~= s.drop_last().update(i, true));
        lemma_trues_set(s.drop_last(), i);
    }
}

} // verus!
