//! Scalar two-set kernels: merges and galloping search.
use vstd::prelude::*;
use crate::sets::{
    inter, lemma_concat_sorted, lemma_inter_comm, lemma_inter_contains, lemma_inter_sorted,
    lemma_inter_take_ext, lemma_inter_take_len, lemma_inter_take_step, lemma_sorted_eq, sorted,
};
use crate::visitor::Visitor;

verus! {

/// Classic three-way merge: advance `a` on `<`, `b` on `>`, emit and advance
/// both on `=`.
pub fn naive_merge<V: Visitor>(a: &[i32], b: &[i32], visitor: &mut V)
    requires
        sorted(a@),
        sorted(b@),
        old(visitor).inv(),
        inter(a@, b@).len() <= old(visitor).room(),
    ensures
        final(visitor).inv(),
        final(visitor).seen() == old(visitor).seen() + inter(a@, b@),
        final(visitor).room() == old(visitor).room() - inter(a@, b@).len(),
{
    let mut i: usize = 0;
    let mut j: usize = 0;
    while i < a.len() && j < b.len()
        invariant
            sorted(a@),
            sorted(b@),
            i <= a@.len(),
            j <= b@.len(),
            visitor.inv(),
            visitor.seen() == old(visitor).seen() + inter(a@.take(i as int), b@),
            visitor.room() == old(visitor).room() - inter(a@.take(i as int), b@).len(),
            inter(a@, b@).len() <= old(visitor).room(),
            forall|k: int| 0 <= k < j && i < a@.len() ==> b@[k] < a@[i as int],
            forall|k: int| 0 <= k < i && j < b@.len() ==> a@[k] < b@[j as int],
        decreases a@.len() - i + b@.len() - j,
    {
        proof {
            lemma_inter_take_step(a@, b@, i as int);
            if i + 1 < a@.len() {
                lemma_inter_take_len(a@, b@, i as int + 1);
            } else {
                assert(a@.take(i as int + 1) =~= a@);
            }
        }
        let x = a[i];
        let y = b[j];
        if x < y {
            proof { lemma_absent(a@, b@, i as int, j as int); }
            i = i + 1;
        } else if x > y {
            j = j + 1;
        } else {
            proof {
                assert(b@.contains(b@[j as int]));
                assert(old(visitor).seen() + inter(a@.take(i as int), b@).push(x)
                    =~= (old(visitor).seen() + inter(a@.take(i as int), b@)).push(x));
            }
            visitor.visit(x);
            i = i + 1;
            j = j + 1;
        }
    }
    proof { lemma_merge_done(a@, b@, i as int, j as int); }
}

/// The same merge in branch-minimised form: each step computes both
/// advances from the comparison and visits only on equality.
pub fn branchless_merge<V: Visitor>(a: &[i32], b: &[i32], visitor: &mut V)
    requires
        sorted(a@),
        sorted(b@),
        old(visitor).inv(),
        inter(a@, b@).len() <= old(visitor).room(),
    ensures
        final(visitor).inv(),
        final(visitor).seen() == old(visitor).seen() + inter(a@, b@),
        final(visitor).room() == old(visitor).room() - inter(a@, b@).len(),
{
    let mut i: usize = 0;
    let mut j: usize = 0;
    while i < a.len() && j < b.len()
        invariant
            sorted(a@),
            sorted(b@),
            i <= a@.len(),
            j <= b@.len(),
            visitor.inv(),
            visitor.seen() == old(visitor).seen() + inter(a@.take(i as int), b@),
            visitor.room() == old(visitor).room() - inter(a@.take(i as int), b@).len(),
            inter(a@, b@).len() <= old(visitor).room(),
            forall|k: int| 0 <= k < j && i < a@.len() ==> b@[k] < a@[i as int],
            forall|k: int| 0 <= k < i && j < b@.len() ==> a@[k] < b@[j as int],
        decreases a@.len() - i + b@.len() - j,
    {
        proof {
            lemma_inter_take_step(a@, b@, i as int);
            if i + 1 < a@.len() {
                lemma_inter_take_len(a@, b@, i as int + 1);
            } else {
                assert(a@.take(i as int + 1) =~= a@);
            }
        }
        let x = a[i];
        let y = b[j];
        if x == y {
            proof {
                assert(b@.contains(b@[j as int]));
                assert(old(visitor).seen() + inter(a@.take(i as int), b@).push(x)
                    =~= (old(visitor).seen() + inter(a@.take(i as int), b@)).push(x));
            }
            visitor.visit(x);
        } else if x < y {
            proof { lemma_absent(a@, b@, i as int, j as int); }
        }
        let step_a: usize = if x <= y { 1 } else { 0 };
        let step_b: usize = if y <= x { 1 } else { 0 };
        i = i + step_a;
        j = j + step_b;
    }
    proof { lemma_merge_done(a@, b@, i as int, j as int); }
}

proof fn lemma_absent(a: Seq<i32>, b: Seq<i32>, i: int, j: int)
    requires
        sorted(b),
        0 <= i < a.len(),
        0 <= j < b.len(),
        a[i] < b[j],
        forall|k: int| 0 <= k < j ==> b[k] < a[i],
    ensures
        !b.contains(a[i]),
{
    if b.contains(a[i]) {
        let k = choose|k: int| 0 <= k < b.len() && b[k] == a[i];
        if k >= j && k != j {
            assert(b[j] < b[k]);
        }
    }
}

proof fn lemma_merge_done(a: Seq<i32>, b: Seq<i32>, i: int, j: int)
    requires
        sorted(a),
        0 <= i <= a.len(),
        0 <= j <= b.len(),
        i == a.len() || j == b.len(),
        forall|k: int| 0 <= k < j && i < a.len() ==> b[k] < a[i],
    ensures
        inter(a.take(i), b) == inter(a, b),
{
    assert forall|k: int| i <= k < a.len() implies !b.contains(#[trigger] a[k]) by {
        if b.contains(a[k]) {
            let m = choose|m: int| 0 <= m < b.len() && b[m] == a[k];
            assert(b[m] < a[i]);
            if k != i {
                assert(a[i] < a[k]);
            }
        }
    }
    lemma_inter_take_ext(a, b, i);
}

/// First position at or after `base` whose element is not below `x`:
/// exponential probing with a doubling stride, then binary search inside
/// the window found.
pub fn gallop(large: &[i32], base: usize, x: i32) -> (r: usize)
    requires
        sorted(large@),
        base <= large@.len(),
    ensures
        base <= r <= large@.len(),
        forall|k: int| base <= k < r ==> large@[k] < x,
        r < large@.len() ==> large@[r as int] >= x,
{
    let n = large.len();
    let mut lo: usize = base;
    let mut step: usize = 1;
    while step <= n - lo && large[lo + step - 1] < x
        invariant
            sorted(large@),
            n == large@.len(),
            base <= lo <= n,
            step >= 1,
            forall|k: int| base <= k < lo ==> large@[k] < x,
        decreases n - lo,
    {
        proof {
            assert forall|k: int| lo <= k < lo + step implies large@[k] < x by {
                if k < lo + step - 1 {
                    assert(large@[k] < large@[lo + step - 1]);
                }
            }
        }
        lo = lo + step;
        if step <= usize::MAX / 2 {
            step = step * 2;
        }
    }
    let mut hi: usize = if step <= n - lo { lo + step - 1 } else { n };
    while lo < hi
        invariant
            sorted(large@),
            n == large@.len(),
            base <= lo <= hi <= n,
            forall|k: int| base <= k < lo ==> large@[k] < x,
            hi < n ==> large@[hi as int] >= x,
        decreases hi - lo,
    {
        let mid = lo + (hi - lo) / 2;
        if large[mid] < x {
            proof {
                assert forall|k: int| base <= k < mid + 1 implies large@[k] < x by {
                    if k < mid {
                        assert(large@[k] < large@[mid as int]);
                    }
                }
            }
            lo = mid + 1;
        } else {
            hi = mid;
        }
    }
    lo
}

proof fn lemma_gallop_hit(large: Seq<i32>, base: int, r: int, x: i32)
    requires
        sorted(large),
        0 <= base <= r <= large.len(),
        forall|k: int| base <= k < r ==> large[k] < x,
        r < large.len() ==> large[r] >= x,
    ensures
        large.skip(base).contains(x) <==> (r < large.len() && large[r] == x),
{
    if large.skip(base).contains(x) {
        let k = choose|k: int| 0 <= k < large.len() - base && large.skip(base)[k] == x;
        assert(large[base + k] == x);
        if base + k < r {
        } else if base + k > r {
            assert(large[r] < large[base + k]);
        }
    }
    if r < large.len() && large[r] == x {
        assert(large.skip(base)[r - base] == x);
    }
}

/// Galloping intersection: each element of the smaller side is located in
/// the larger side by `gallop`, which resumes after the last position found.
pub fn galloping<V: Visitor>(a: &[i32], b: &[i32], visitor: &mut V)
    requires
        sorted(a@),
        sorted(b@),
        old(visitor).inv(),
        inter(a@, b@).len() <= old(visitor).room(),
    ensures
        final(visitor).inv(),
        final(visitor).seen() == old(visitor).seen() + inter(a@, b@),
        final(visitor).room() == old(visitor).room() - inter(a@, b@).len(),
{
    proof { lemma_inter_comm(a@, b@); }
    if a.len() <= b.len() {
        gallop_small(a, b, visitor);
    } else {
        gallop_small(b, a, visitor);
    }
}

fn gallop_small<V: Visitor>(small: &[i32], large: &[i32], visitor: &mut V)
    requires
        sorted(small@),
        sorted(large@),
        old(visitor).inv(),
        inter(small@, large@).len() <= old(visitor).room(),
    ensures
        final(visitor).inv(),
        final(visitor).seen() == old(visitor).seen() + inter(small@, large@),
        final(visitor).room() == old(visitor).room() - inter(small@, large@).len(),
{
    let mut i: usize = 0;
    let mut base: usize = 0;
    while i < small.len()
        invariant
            sorted(small@),
            sorted(large@),
            i <= small@.len(),
            base <= large@.len(),
            visitor.inv(),
            visitor.seen() == old(visitor).seen() + inter(small@.take(i as int), large@),
            visitor.room() == old(visitor).room() - inter(small@.take(i as int), large@).len(),
            inter(small@, large@).len() <= old(visitor).room(),
            forall|k: int| 0 <= k < base && i < small@.len() ==> large@[k] < small@[i as int],
        decreases small@.len() - i,
    {
        let x = small[i];
        let r = gallop(large, base, x);
        proof {
            lemma_inter_take_step(small@, large@, i as int);
            if i + 1 < small@.len() {
                lemma_inter_take_len(small@, large@, i as int + 1);
            } else {
                assert(small@.take(i as int + 1) =~= small@);
            }
            lemma_gallop_hit(large@, base as int, r as int, x);
            assert(large@.contains(x) <==> large@.skip(base as int).contains(x)) by {
                if large@.contains(x) {
                    let k = choose|k: int| 0 <= k < large@.len() && large@[k] == x;
                    assert(large@.skip(base as int)[k - base] == x);
                }
                if large@.skip(base as int).contains(x) {
                    let k = choose|k: int| 0 <= k < large@.len() - base && large@.skip(base as int)[k] == x;
                    assert(large@[base + k] == x);
                }
            }
        }
        if r < large.len() && large[r] == x {
            proof {
                assert(old(visitor).seen() + inter(small@.take(i as int), large@).push(x)
                    =~= (old(visitor).seen() + inter(small@.take(i as int), large@)).push(x));
            }
            visitor.visit(x);
            base = r + 1;
        } else {
            base = r;
        }
        i = i + 1;
        proof {
            assert forall|k: int| 0 <= k < base && i < small@.len() implies large@[k] < small@[i as int] by {
                assert(small@[i - 1] < small@[i as int]);
                if k >= r {
                    assert(large@[k] == x);
                }
            }
        }
    }
    proof { assert(small@.take(i as int) =~= small@); }
}

/// Byte-miss scalar intersection over 3×3 tiles: all pairs of a tile of
/// three elements from each side are compared, the side whose tile ends lower
/// advances, and a branchless merge handles the remainders.
pub fn bmiss_scalar_3x<V: Visitor>(a: &[i32], b: &[i32], visitor: &mut V)
    requires
        sorted(a@),
        sorted(b@),
        old(visitor).inv(),
        inter(a@, b@).len() <= old(visitor).room(),
    ensures
        final(visitor).inv(),
        final(visitor).seen() == old(visitor).seen() + inter(a@, b@),
        final(visitor).room() == old(visitor).room() - inter(a@, b@).len(),
{
    crate::shuffling::shuffling_lanes(a, b, 3, visitor)
}

/// Byte-miss scalar intersection over 4×4 tiles.
pub fn bmiss_scalar_4x<V: Visitor>(a: &[i32], b: &[i32], visitor: &mut V)
    requires
        sorted(a@),
        sorted(b@),
        old(visitor).inv(),
        inter(a@, b@).len() <= old(visitor).room(),
    ensures
        final(visitor).inv(),
        final(visitor).seen() == old(visitor).seen() + inter(a@, b@),
        final(visitor).room() == old(visitor).room() - inter(a@, b@).len(),
{
    crate::shuffling::shuffling_lanes(a, b, 4, visitor)
}

/// Baeza-Yates intersection: the median of the smaller side is located in
/// the larger side by binary search, and both halves are intersected
/// recursively around it.
pub fn baezayates<V: Visitor>(a: &[i32], b: &[i32], visitor: &mut V)
    requires
        sorted(a@),
        sorted(b@),
        old(visitor).inv(),
        inter(a@, b@).len() <= old(visitor).room(),
    ensures
        final(visitor).inv(),
        final(visitor).seen() == old(visitor).seen() + inter(a@, b@),
        final(visitor).room() == old(visitor).room() - inter(a@, b@).len(),
{
    proof { lemma_inter_comm(a@, b@); }
    if a.len() <= b.len() {
        baeza_split(a, b, visitor);
    } else {
        baeza_split(b, a, visitor);
    }
}

fn baeza_split<V: Visitor>(small: &[i32], large: &[i32], visitor: &mut V)
    requires
        sorted(small@),
        sorted(large@),
        old(visitor).inv(),
        inter(small@, large@).len() <= old(visitor).room(),
    ensures
        final(visitor).inv(),
        final(visitor).seen() == old(visitor).seen() + inter(small@, large@),
        final(visitor).room() == old(visitor).room() - inter(small@, large@).len(),
    decreases small@.len(),
{
    if small.len() == 0 || large.len() == 0 {
        proof {
            lemma_inter_contains(small@, large@);
            if inter(small@, large@).len() > 0 {
                assert(inter(small@, large@).contains(inter(small@, large@)[0]));
            }
            assert(old(visitor).seen() + inter(small@, large@) =~= old(visitor).seen());
        }
        return;
    }
    let mid = small.len() / 2;
    let x = small[mid];
    let pos = gallop(large, 0, x);
    let found = pos < large.len() && large[pos] == x;
    let after = if found { pos + 1 } else { pos };
    let sl = vstd::slice::slice_subrange(small, 0, mid);
    let sr = vstd::slice::slice_subrange(small, mid + 1, small.len());
    let ll = vstd::slice::slice_subrange(large, 0, pos);
    let lr = vstd::slice::slice_subrange(large, after, large.len());
    let ghost p1 = inter(sl@, ll@);
    let ghost p2: Seq<i32> = if found { seq![x] } else { Seq::empty() };
    let ghost p3 = inter(sr@, lr@);
    proof {
        lemma_inter_contains(sl@, ll@);
        lemma_inter_contains(sr@, lr@);
        lemma_inter_contains(small@, large@);
        lemma_inter_sorted(sl@, ll@);
        lemma_inter_sorted(sr@, lr@);
        lemma_inter_sorted(small@, large@);
        assert forall|v: i32| #[trigger] sl@.contains(v) <==> (small@.contains(v) && v < x) by {
            if sl@.contains(v) {
                let k = choose|k: int| 0 <= k < sl@.len() && sl@[k] == v;
                assert(small@[k] == v);
            }
            if small@.contains(v) && v < x {
                let k = choose|k: int| 0 <= k < small@.len() && small@[k] == v;
                if k >= mid {
                    if k > mid {
                        assert(small@[mid as int] < small@[k]);
                    }
                }
                assert(sl@[k] == v);
            }
        }
        assert forall|v: i32| #[trigger] sr@.contains(v) <==> (small@.contains(v) && v > x) by {
            if sr@.contains(v) {
                let k = choose|k: int| 0 <= k < sr@.len() && sr@[k] == v;
                assert(small@[mid + 1 + k] == v);
                assert(small@[mid as int] < small@[mid + 1 + k]);
            }
            if small@.contains(v) && v > x {
                let k = choose|k: int| 0 <= k < small@.len() && small@[k] == v;
                if k < mid {
                    assert(small@[k] < small@[mid as int]);
                }
                assert(sr@[k - mid - 1] == v);
            }
        }
        assert forall|v: i32| #[trigger] ll@.contains(v) <==> (large@.contains(v) && v < x) by {
            if ll@.contains(v) {
                let k = choose|k: int| 0 <= k < ll@.len() && ll@[k] == v;
                assert(large@[k] == v);
            }
            if large@.contains(v) && v < x {
                let k = choose|k: int| 0 <= k < large@.len() && large@[k] == v;
                if k >= pos {
                    if k > pos {
                        assert(large@[pos as int] < large@[k]);
                    }
                }
                assert(ll@[k] == v);
            }
        }
        assert forall|v: i32| #[trigger] lr@.contains(v) <==> (large@.contains(v) && v > x) by {
            if lr@.contains(v) {
                let k = choose|k: int| 0 <= k < lr@.len() && lr@[k] == v;
                assert(large@[after + k] == v);
                if after + k > pos && pos < large@.len() {
                    assert(large@[pos as int] < large@[after + k]);
                }
            }
            if large@.contains(v) && v > x {
                let k = choose|k: int| 0 <= k < large@.len() && large@[k] == v;
                if k < after {
                    if k < pos {
                    } else if k == pos {
                    }
                }
                assert(lr@[k - after] == v);
            }
        }
        assert(large@.contains(x) <==> found) by {
            if large@.contains(x) {
                let k = choose|k: int| 0 <= k < large@.len() && large@[k] == x;
                if k > pos && pos < large@.len() {
                    assert(large@[pos as int] < large@[k]);
                }
            }
            if found {
                assert(large@[pos as int] == x);
            }
        }
        assert(small@.contains(x)) by {
            assert(small@[mid as int] == x);
        }
        assert forall|i: int, j: int| 0 <= i < p1.len() && 0 <= j < p2.len() implies p1[i] < p2[j] by {
            assert(p1.contains(p1[i]));
        }
        lemma_concat_sorted(p1, p2);
        assert forall|i: int, j: int| 0 <= i < (p1 + p2).len() && 0 <= j < p3.len() implies (p1 + p2)[i]
            < p3[j] by {
            assert((p1 + p2).contains((p1 + p2)[i]));
            assert(p3.contains(p3[j]));
            if p1.contains((p1 + p2)[i]) {
            } else {
                assert(p2.contains((p1 + p2)[i]));
            }
        }
        lemma_concat_sorted(p1 + p2, p3);
        assert forall|v: i32| (p1 + p2 + p3).contains(v) <==> inter(small@, large@).contains(v) by {
            if found {
                assert(p2[0] == x);
                if p2.contains(v) {
                    let k = choose|k: int| 0 <= k < p2.len() && p2[k] == v;
                }
            } else {
                assert(p2.len() == 0);
            }
            assert(p2.contains(v) <==> (found && v == x));
        }
        lemma_sorted_eq(p1 + p2 + p3, inter(small@, large@));
    }
    baeza_split(sl, ll, visitor);
    if found {
        visitor.visit(x);
    }
    proof {
        assert(old(visitor).seen() + p1 + p2 =~= visitor.seen());
    }
    baeza_split(sr, lr, visitor);
    proof {
        assert(old(visitor).seen() + p1 + p2 + p3 =~= visitor.seen());
        assert(old(visitor).seen() + (p1 + p2 + p3) =~= old(visitor).seen() + p1 + p2 + p3);
    }
}

/// Galloping intersection of `small[..len]` with `large`, written back into
/// `small` from the front (the write position never passes the read
/// position). Returns the length of the result.
pub fn galloping_inplace(small: &mut [i32], len: usize, large: &[i32]) -> (r: usize)
    requires
        len <= old(small)@.len(),
        sorted(old(small)@.take(len as int)),
        sorted(large@),
    ensures
        final(small)@.len() == old(small)@.len(),
        r == inter(old(small)@.take(len as int), large@).len(),
        final(small)@.take(r as int) == inter(old(small)@.take(len as int), large@),
        final(small)@.skip(len as int) == old(small)@.skip(len as int),
{
    let ghost s0 = old(small)@.take(len as int);
    let mut i: usize = 0;
    let mut w: usize = 0;
    let mut base: usize = 0;
    while i < len
        invariant
            s0 == old(small)@.take(len as int),
            sorted(s0),
            sorted(large@),
            len <= small@.len(),
            small@.len() == old(small)@.len(),
            w <= i <= len,
            base <= large@.len(),
            w == inter(s0.take(i as int), large@).len(),
            small@.take(w as int) == inter(s0.take(i as int), large@),
            forall|k: int| i <= k < small@.len() ==> small@[k] == old(small)@[k],
            forall|k: int| 0 <= k < base && i < len ==> large@[k] < s0[i as int],
        decreases len - i,
    {
        let x = small[i];
        assert(x == s0[i as int]);
        let r = gallop(large, base, x);
        proof {
            lemma_inter_take_step(s0, large@, i as int);
            lemma_gallop_hit(large@, base as int, r as int, x);
            assert(large@.contains(x) <==> large@.skip(base as int).contains(x)) by {
                if large@.contains(x) {
                    let k = choose|k: int| 0 <= k < large@.len() && large@[k] == x;
                    assert(large@.skip(base as int)[k - base] == x);
                }
                if large@.skip(base as int).contains(x) {
                    let k = choose|k: int| 0 <= k < large@.len() - base && large@.skip(base as int)[k] == x;
                    assert(large@[base + k] == x);
                }
            }
        }
        if r < large.len() && large[r] == x {
            let ghost before = small@;
            small[w] = x;
            proof {
                assert(small@.take(w + 1) =~= before.take(w as int).push(x));
            }
            w = w + 1;
            base = r + 1;
        } else {
            base = r;
        }
        i = i + 1;
        proof {
            assert forall|k: int| 0 <= k < base && i < len implies large@[k] < s0[i as int] by {
                assert(s0[i - 1] < s0[i as int]);
                if k >= r {
                    assert(large@[k] == x);
                }
            }
        }
    }
    proof {
        assert(s0.take(i as int) =~= s0);
        assert(small@.skip(len as int) =~= old(small)@.skip(len as int));
    }
    w
}

} // verus!
