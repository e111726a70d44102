//! The lexicographic order of labels, and sorting node indices by label.
use vstd::prelude::*;

verus! {

/// `a` sorts strictly before `b`: at the first position where they differ
/// `a` has the smaller character, or `a` is a proper prefix of `b`. This is
/// the order of `str`, which compares UTF-8 bytes and so agrees with
/// comparing characters.
pub open spec fn label_lt(a: Seq<char>, b: Seq<char>) -> bool
    decreases a.len(),
{
    if a.len() == 0 {
        b.len() > 0
    } else if b.len() == 0 {
        false
    } else if a[0] != b[0] {
        a[0] < b[0]
    } else {
        label_lt(a.drop_first(), b.drop_first())
    }
}

pub proof fn lemma_lt_irreflexive(a: Seq<char>)
    ensures
        !label_lt(a, a),
    decreases a.len(),
{
    if a.len() > 0 {
        lemma_lt_irreflexive(a.drop_first());
    }
}

pub proof fn lemma_lt_asymmetric(a: Seq<char>, b: Seq<char>)
    ensures
        !(label_lt(a, b) && label_lt(b, a)),
    decreases a.len(),
{
    if a.len() > 0 && b.len() > 0 && a[0] == b[0] {
        lemma_lt_asymmetric(a.drop_first(), b.drop_first());
    }
}

pub proof fn lemma_lt_transitive(a: Seq<char>, b: Seq<char>, c: Seq<char>)
    requires
        label_lt(a, b),
        label_lt(b, c),
    ensures
        label_lt(a, c),
    decreases a.len(),
{
    if a.len() > 0 && b.len() > 0 && c.len() > 0 && a[0] == b[0] && b[0] == c[0] {
        lemma_lt_transitive(a.drop_first(), b.drop_first(), c.drop_first());
    }
}

pub proof fn lemma_lt_total(a: Seq<char>, b: Seq<char>)
    requires
        a != b,
    ensures
        label_lt(a, b) || label_lt(b, a),
    decreases a.len(),
{
    if a.len() == 0 {
        if b.len() == 0 {
            assert(a =~= b);
        }
    } else if b.len() > 0 && a[0] == b[0] {
        if a.drop_first() == b.drop_first() {
            assert(a =~= b) by {
                assert(a.drop_first().len() == b.drop_first().len());
                assert(a.len() == b.len());
                assert forall|i: int| 0 <= i < a.len() implies a[i] == b[i] by {
                    if i > 0 {
                        assert(a.drop_first()[i - 1] == b.drop_first()[i - 1]);
                        assert(a.drop_first()[i - 1] == a[i]);
                        assert(b.drop_first()[i - 1] == b[i]);
                    }
                }
            }
        }
        lemma_lt_total(a.drop_first(), b.drop_first());
    }
}

proof fn lemma_lt_skip(a: Seq<char>, b: Seq<char>, i: int)
    requires
        0 <= i < a.len(),
        i < b.len(),
    ensures
        label_lt(a.skip(i), b.skip(i)) == if a[i] != b[i] {
            a[i] < b[i]
        } else {
            label_lt(a.skip(i + 1), b.skip(i + 1))
        },
{
    assert(a.skip(i).drop_first() =~= a.skip(i + 1));
    assert(b.skip(i).drop_first() =~= b.skip(i + 1));
}

/// Whether `a` sorts strictly before `b`.
pub fn less(a: &Vec<char>, b: &Vec<char>) -> (r: bool)
    ensures
        r == label_lt(a@, b@),
{
    let mut i: usize = 0;
    assert(a@.skip(0) =~= a@);
    assert(b@.skip(0) =~= b@);
    while i < a.len() && i < b.len()
        invariant
            i <= a@.len(),
            i <= b@.len(),
            label_lt(a@, b@) == label_lt(a@.skip(i as int), b@.skip(i as int)),
        decreases a@.len() - i,
    {
        proof {
            lemma_lt_skip(a@, b@, i as int);
        }
        if a[i] != b[i] {
            return a[i] < b[i];
        }
        i = i + 1;
    }
    assert(a@.skip(i as int).len() == 0 || b@.skip(i as int).len() == 0);
    i == a.len() && i < b.len()
}

/// The indices `0..keys.len()`, ordered by their keys.
pub fn sort_by_key(keys: &Vec<Vec<char>>) -> (order: Vec<usize>)
    requires
        forall|i: int, j: int|
            0 <= i < keys@.len() && 0 <= j < keys@.len() && #[trigger] keys@[i]@ == #[trigger] keys@[j]@ ==> i == j,
    ensures
        order@.len() == keys@.len(),
        forall|k: int| 0 <= k < order@.len() ==> (#[trigger] order@[k] as int) < keys@.len(),
        forall|x: int| 0 <= x < keys@.len() ==> #[trigger] order@.contains(x as usize),
        forall|a: int, b: int|
            0 <= a < b < order@.len() ==> label_lt(
                keys@[#[trigger] order@[a] as int]@,
                keys@[#[trigger] order@[b] as int]@,
            ),
{
    let mut order: Vec<usize> = Vec::new();
    for i in 0..keys.len()
        invariant
            forall|p: int, q: int|
                0 <= p < keys@.len() && 0 <= q < keys@.len() && #[trigger] keys@[p]@
                    == #[trigger] keys@[q]@ ==> p == q,
            order@.len() == i,
            forall|k: int| 0 <= k < order@.len() ==> (#[trigger] order@[k] as int) < i,
            forall|x: int| 0 <= x < i ==> #[trigger] order@.contains(x as usize),
            forall|a: int, b: int|
                0 <= a < b < order@.len() ==> label_lt(
                    keys@[#[trigger] order@[a] as int]@,
                    keys@[#[trigger] order@[b] as int]@,
                ),
    {
        let mut pos: usize = 0;
        while pos < order.len() && !less(&keys[i], &keys[order[pos]])
            invariant
                pos <= order@.len(),
                order@.len() == i,
                i < keys@.len(),
                forall|k: int| 0 <= k < order@.len() ==> (#[trigger] order@[k] as int) < i,
                forall|k: int| 0 <= k < pos ==> label_lt(keys@[#[trigger] order@[k] as int]@, keys@[i as int]@),
                forall|p: int, q: int|
                    0 <= p < keys@.len() && 0 <= q < keys@.len() && #[trigger] keys@[p]@
                        == #[trigger] keys@[q]@ ==> p == q,
            decreases order@.len() - pos,
        {
            proof {
                let o = order@[pos as int] as int;
                assert(keys@[o]@ != keys@[i as int]@);
                lemma_lt_total(keys@[o]@, keys@[i as int]@);
            }
            pos = pos + 1;
        }
        let ghost old_order = order@;
        order.insert(pos, i);
        proof {
            assert forall|a: int, b: int| 0 <= a < b < order@.len() implies label_lt(
                keys@[#[trigger] order@[a] as int]@,
                keys@[#[trigger] order@[b] as int]@,
            ) by {
                if a < pos && b == pos {
                    assert(old_order[a] == order@[a]);
                } else if a < pos && b > pos {
                    assert(old_order[a] == order@[a]);
                    assert(old_order[b - 1] == order@[b]);
                } else if a == pos {
                    assert(old_order[b - 1] == order@[b]);
                    let o = old_order[pos as int] as int;
                    assert(label_lt(keys@[i as int]@, keys@[o]@));
                    if b - 1 > pos {
                        assert(label_lt(keys@[o]@, keys@[old_order[b - 1] as int]@));
                        lemma_lt_transitive(keys@[i as int]@, keys@[o]@, keys@[old_order[b - 1] as int]@);
                    }
                } else if a > pos {
                    assert(old_order[a - 1] == order@[a]);
                    assert(old_order[b - 1] == order@[b]);
                } else {
                    assert(old_order[a] == order@[a]);
                    assert(old_order[b] == order@[b]);
                }
            }
            assert forall|x: int| 0 <= x < i + 1 implies #[trigger] order@.contains(x as usize) by {
                if x == i {
                    assert(order@[pos as int] == i);
                } else {
                    assert(old_order.contains(x as usize));
                    let k = choose|k: int| 0 <= k < old_order.len() && old_order[k] == x as usize;
                    if k < pos {
                        assert(order@[k] == x as usize);
                    } else {
                        assert(order@[k + 1] == x as usize);
                    }
                }
            }
            assert forall|k: int| 0 <= k < order@.len() implies (#[trigger] order@[k] as int) < i + 1 by {
                if k < pos {
                    assert(order@[k] == old_order[k]);
                } else if k > pos {
                    assert(order@[k] == old_order[k - 1]);
                }
            }
        }
    }
    order
}

} // verus!
