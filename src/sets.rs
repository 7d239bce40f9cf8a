//! Mathematical model of sorted integer sets and their intersection.
use vstd::prelude::*;

verus! {

/// A strictly ascending sequence: a sorted set without duplicates.
pub open spec fn sorted(s: Seq<i32>) -> bool {
    forall|i: int, j: int| 0 <= i < j < s.len() ==> s[i] < s[j]
}

/// The elements of `a` that also occur in `b`, in the order of `a`.
pub open spec fn inter(a: Seq<i32>, b: Seq<i32>) -> Seq<i32>
    decreases a.len(),
{
    if a.len() == 0 {
        Seq::empty()
    } else {
        let rest = inter(a.drop_last(), b);
        if b.contains(a.last()) {
            rest.push(a.last())
        } else {
            rest
        }
    }
}

/// Intersection of a list of sets, folded from the first one.
pub open spec fn inter_all(sets: Seq<Seq<i32>>) -> Seq<i32>
    decreases sets.len(),
{
    if sets.len() == 0 {
        Seq::empty()
    } else if sets.len() == 1 {
        sets[0]
    } else {
        inter(inter_all(sets.drop_last()), sets.last())
    }
}

/// Every set of the list is sorted.
pub open spec fn all_sorted(sets: Seq<Seq<i32>>) -> bool {
    forall|k: int| 0 <= k < sets.len() ==> sorted(#[trigger] sets[k])
}

pub proof fn lemma_inter_contains(a: Seq<i32>, b: Seq<i32>)
    ensures
        forall|v: i32| #[trigger] inter(a, b).contains(v) <==> (a.contains(v) && b.contains(v)),
    decreases a.len(),
{
    if a.len() > 0 {
        lemma_inter_contains(a.drop_last(), b);
        assert forall|v: i32| a.contains(v) <==> (a.drop_last().contains(v) || v == a.last()) by {
            if a.contains(v) {
                let k = choose|k: int| 0 <= k < a.len() && a[k] == v;
                if k < a.len() - 1 {
                    assert(a.drop_last()[k] == v);
                }
            }
            if a.drop_last().contains(v) {
                let k = choose|k: int| 0 <= k < a.len() - 1 && a.drop_last()[k] == v;
                assert(a[k] == v);
            }
            if v == a.last() {
                assert(a[a.len() - 1] == v);
            }
        }
        let rest = inter(a.drop_last(), b);
        assert forall|v: i32| rest.push(a.last()).contains(v) <==> (rest.contains(v) || v == a.last()) by {
            if rest.push(a.last()).contains(v) {
                let k = choose|k: int| 0 <= k < rest.len() + 1 && rest.push(a.last())[k] == v;
                if k < rest.len() {
                    assert(rest[k] == v);
                }
            }
            if rest.contains(v) {
                let k = choose|k: int| 0 <= k < rest.len() && rest[k] == v;
                assert(rest.push(a.last())[k] == v);
            }
            if v == a.last() {
                assert(rest.push(a.last())[rest.len() as int] == v);
            }
        }
        assert forall|v: i32| #[trigger] inter(a, b).contains(v) <==> (a.contains(v) && b.contains(v)) by {
            assert(rest.contains(v) <==> (a.drop_last().contains(v) && b.contains(v)));
        }
    }
}

pub proof fn lemma_inter_sorted(a: Seq<i32>, b: Seq<i32>)
    requires
        sorted(a),
    ensures
        sorted(inter(a, b)),
        inter(a, b).len() <= a.len(),
    decreases a.len(),
{
    if a.len() > 0 {
        let rest = inter(a.drop_last(), b);
        lemma_inter_sorted(a.drop_last(), b);
        lemma_inter_contains(a.drop_last(), b);
        if b.contains(a.last()) {
            assert forall|k: int| 0 <= k < rest.len() implies rest[k] < a.last() by {
                assert(rest.contains(rest[k]));
                let m = choose|m: int| 0 <= m < a.len() - 1 && a.drop_last()[m] == rest[k];
                assert(a[m] == rest[k]);
            }
        }
    }
}

/// Two strictly ascending sequences with the same elements are equal.
pub proof fn lemma_sorted_eq(x: Seq<i32>, y: Seq<i32>)
    requires
        sorted(x),
        sorted(y),
        forall|v: i32| x.contains(v) <==> y.contains(v),
    ensures
        x == y,
    decreases x.len(),
{
    if x.len() == 0 {
        if y.len() > 0 {
            assert(y.contains(y[0]));
        }
    } else {
        assert(x.contains(x[0]));
        assert(y.contains(x[0]));
        assert(y.contains(y[0]));
        assert(x.contains(y[0]));
        assert(x[0] == y[0]);
        let xt = x.drop_first();
        let yt = y.drop_first();
        assert forall|v: i32| xt.contains(v) <==> yt.contains(v) by {
            if xt.contains(v) {
                let k = choose|k: int| 0 <= k < xt.len() && xt[k] == v;
                assert(x[k + 1] == v);
                assert(x.contains(v));
                let m = choose|m: int| 0 <= m < y.len() && y[m] == v;
                assert(m > 0);
                assert(yt[m - 1] == v);
            }
            if yt.contains(v) {
                let k = choose|k: int| 0 <= k < yt.len() && yt[k] == v;
                assert(y[k + 1] == v);
                assert(y.contains(v));
                let m = choose|m: int| 0 <= m < x.len() && x[m] == v;
                assert(m > 0);
                assert(xt[m - 1] == v);
            }
        }
        lemma_sorted_eq(xt, yt);
        assert(x =~= seq![x[0]] + xt);
        assert(y =~= seq![y[0]] + yt);
    }
}

/// A sorted sequence whose elements all occur in `t` is no longer than `t`.
pub proof fn lemma_sorted_sub_len(s: Seq<i32>, t: Seq<i32>)
    requires
        sorted(s),
        forall|k: int| 0 <= k < s.len() ==> t.contains(#[trigger] s[k]),
    ensures
        s.len() <= t.len(),
{
    assert(s.no_duplicates()) by {
        assert forall|i: int, j: int| 0 <= i < s.len() && 0 <= j < s.len() && i != j implies s[i] != s[j] by {
            if i < j {
                assert(s[i] < s[j]);
            } else {
                assert(s[j] < s[i]);
            }
        }
    }
    s.unique_seq_to_set();
    t.lemma_cardinality_of_set();
    assert(s.to_set().subset_of(t.to_set())) by {
        assert forall|v: i32| s.to_set().contains(v) implies t.to_set().contains(v) by {
            let k = choose|k: int| 0 <= k < s.len() && s[k] == v;
            assert(t.contains(s[k]));
        }
    }
    vstd::set_lib::lemma_len_subset(s.to_set(), t.to_set());
}

/// Intersecting a sorted set with a prefix of it: extending the prefix by
/// elements that do not occur in `b` leaves the result unchanged.
pub proof fn lemma_inter_take_ext(a: Seq<i32>, b: Seq<i32>, i: int)
    requires
        0 <= i <= a.len(),
        forall|k: int| i <= k < a.len() ==> !b.contains(#[trigger] a[k]),
    ensures
        inter(a.take(i), b) == inter(a, b),
    decreases a.len() - i,
{
    if i < a.len() {
        lemma_inter_take_ext(a, b, i + 1);
        assert(a.take(i + 1).drop_last() =~= a.take(i));
        assert(a.take(i + 1).last() == a[i]);
    } else {
        assert(a.take(i) =~= a);
    }
}

pub proof fn lemma_inter_take_step(a: Seq<i32>, b: Seq<i32>, i: int)
    requires
        0 <= i < a.len(),
    ensures
        inter(a.take(i + 1), b) == (if b.contains(a[i]) {
            inter(a.take(i), b).push(a[i])
        } else {
            inter(a.take(i), b)
        }),
{
    assert(a.take(i + 1).drop_last() =~= a.take(i));
    assert(a.take(i + 1).last() == a[i]);
}

pub proof fn lemma_inter_take_len(a: Seq<i32>, b: Seq<i32>, i: int)
    requires
        0 <= i <= a.len(),
    ensures
        inter(a.take(i), b).len() <= inter(a, b).len(),
    decreases a.len() - i,
{
    if i < a.len() {
        lemma_inter_take_len(a, b, i + 1);
        lemma_inter_take_step(a, b, i);
    } else {
        assert(a.take(i) =~= a);
    }
}

/// For sorted inputs the intersection does not depend on argument order.
pub proof fn lemma_inter_comm(a: Seq<i32>, b: Seq<i32>)
    requires
        sorted(a),
        sorted(b),
    ensures
        inter(a, b) == inter(b, a),
{
    lemma_inter_sorted(a, b);
    lemma_inter_sorted(b, a);
    lemma_inter_contains(a, b);
    lemma_inter_contains(b, a);
    lemma_sorted_eq(inter(a, b), inter(b, a));
}

/// The intersection of sorted sets is no longer than either input.
pub proof fn lemma_inter_len(a: Seq<i32>, b: Seq<i32>)
    requires
        sorted(a),
        sorted(b),
    ensures
        inter(a, b).len() <= a.len(),
        inter(a, b).len() <= b.len(),
{
    lemma_inter_sorted(a, b);
    lemma_inter_contains(a, b);
    assert forall|k: int| 0 <= k < inter(a, b).len() implies b.contains(#[trigger] inter(a, b)[k]) by {
        assert(inter(a, b).contains(inter(a, b)[k]));
    }
    lemma_sorted_sub_len(inter(a, b), b);
}

pub proof fn lemma_concat_sorted(x: Seq<i32>, y: Seq<i32>)
    requires
        sorted(x),
        sorted(y),
        forall|i: int, j: int| 0 <= i < x.len() && 0 <= j < y.len() ==> x[i] < y[j],
    ensures
        sorted(x + y),
        forall|v: i32| #[trigger] (x + y).contains(v) <==> (x.contains(v) || y.contains(v)),
{
    assert forall|v: i32| #[trigger] (x + y).contains(v) <==> (x.contains(v) || y.contains(v)) by {
        if (x + y).contains(v) {
            let k = choose|k: int| 0 <= k < x.len() + y.len() && (x + y)[k] == v;
            if k < x.len() {
                assert(x[k] == v);
            } else {
                assert(y[k - x.len()] == v);
            }
        }
        if x.contains(v) {
            let k = choose|k: int| 0 <= k < x.len() && x[k] == v;
            assert((x + y)[k] == v);
        }
        if y.contains(v) {
            let k = choose|k: int| 0 <= k < y.len() && y[k] == v;
            assert((x + y)[x.len() + k] == v);
        }
    }
}

} // verus!
