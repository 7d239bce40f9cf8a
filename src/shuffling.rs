//! Lane-parallel shuffling intersection (Katsov 2012): a block of `a` is
//! compared against every rotation of a block of `b`; the block with the
//! smaller last element advances.
use vstd::prelude::*;
use crate::merge::branchless_merge;
use crate::sets::{
    inter, lemma_concat_sorted, lemma_inter_contains, lemma_inter_sorted, lemma_sorted_eq,
    lemma_sorted_sub_len, sorted,
};
use crate::visitor::{compress, lane_on, visit_vector, Visitor};

verus! {

/// The value at position `i`, or one past the largest `i32` beyond the end.
pub open spec fn lo(s: Seq<i32>, i: int) -> int {
    if 0 <= i < s.len() {
        s[i] as int
    } else {
        i32::MAX as int + 1
    }
}

/// Lower bound of the elements not yet looked at on either side.
pub open spec fn frontier(a: Seq<i32>, b: Seq<i32>, ia: int, ib: int) -> int {
    if lo(a, ia) >= lo(b, ib) {
        lo(a, ia)
    } else {
        lo(b, ib)
    }
}

/// Lane `r` of the rotation by `rot` of a block of width `w`.
pub open spec fn rotated(l: int, rot: int, w: int) -> int {
    if l + rot < w {
        l + rot
    } else {
        l + rot - w
    }
}

proof fn lemma_block_member(s: Seq<i32>, i: int, w: int, v: i32)
    requires
        sorted(s),
        0 <= i,
        1 <= w,
        i + w <= s.len(),
    ensures
        s.subrange(i, i + w).contains(v) ==> s.contains(v) && lo(s, i) <= v <= s[i + w - 1] && v < lo(
            s,
            i + w,
        ),
        (s.contains(v) && lo(s, i) <= v < lo(s, i + w)) ==> s.subrange(i, i + w).contains(v),
        lo(s, i) <= lo(s, i + w),
{
    if i + w < s.len() {
        assert(s[i] < s[i + w]);
    }
    let blk = s.subrange(i, i + w);
    if blk.contains(v) {
        let k = choose|k: int| 0 <= k < w && blk[k] == v;
        assert(s[i + k] == v);
        if k < w - 1 {
            assert(s[i + k] < s[i + w - 1]);
        }
        if k > 0 {
            assert(s[i] < s[i + k]);
        }
        if i + w < s.len() {
            assert(s[i + k] < s[i + w]);
        }
    }
    if s.contains(v) && lo(s, i) <= v < lo(s, i + w) {
        let k = choose|k: int| 0 <= k < s.len() && s[k] == v;
        if k < i {
            assert(s[k] < s[i]);
        }
        if k >= i + w {
            if k > i + w {
                assert(s[i + w] < s[k]);
            }
        }
        assert(s.subrange(i, i + w)[k - i] == v);
    }
}

/// One step of the block loop: the elements common to both sides below the
/// new frontier are those below the old one plus the matches of the two
/// current blocks, which all lie at or above the old frontier.
proof fn lemma_block_step(a: Seq<i32>, b: Seq<i32>, ia: int, ib: int, w: int, ia2: int, ib2: int)
    requires
        sorted(a),
        sorted(b),
        1 <= w,
        0 <= ia,
        0 <= ib,
        ia + w <= a.len(),
        ib + w <= b.len(),
        ia2 == ia || ia2 == ia + w,
        ib2 == ib || ib2 == ib + w,
        ia2 != ia || ib2 != ib,
        ia2 == ia + w ==> a[ia + w - 1] <= b[ib + w - 1],
        ib2 == ib + w ==> b[ib + w - 1] <= a[ia + w - 1],
    ensures
        forall|v: i32|
            #![trigger a.subrange(ia, ia + w).contains(v)]
            (a.contains(v) && b.contains(v) && v < frontier(a, b, ia2, ib2)) <==> ((a.contains(v)
                && b.contains(v) && v < frontier(a, b, ia, ib)) || (#[trigger] a.subrange(
                ia,
                ia + w,
            ).contains(v) && b.subrange(ib, ib + w).contains(v))),
{
    assert forall|v: i32|
        (a.contains(v) && b.contains(v) && v < frontier(a, b, ia2, ib2)) <==> ((a.contains(v)
            && b.contains(v) && v < frontier(a, b, ia, ib)) || (#[trigger] a.subrange(
            ia,
            ia + w,
        ).contains(v) && b.subrange(ib, ib + w).contains(v))) by {
        lemma_block_member(a, ia, w, v);
        lemma_block_member(b, ib, w, v);
        if ia2 == ia + w {
            lemma_block_member(a, ia, w, v);
        }
        if ib2 == ib + w {
            lemma_block_member(b, ib, w, v);
        }
    }
}

proof fn lemma_block_matches(a: Seq<i32>, b: Seq<i32>, ia: int, ib: int, w: int)
    requires
        sorted(a),
        sorted(b),
        1 <= w,
        0 <= ia,
        0 <= ib,
        ia + w <= a.len(),
        ib + w <= b.len(),
    ensures
        forall|v: i32|
            #[trigger] inter(a.subrange(ia, ia + w), b.subrange(ib, ib + w)).contains(v) ==> v
                >= frontier(a, b, ia, ib) && a.contains(v) && b.contains(v),
        sorted(inter(a.subrange(ia, ia + w), b.subrange(ib, ib + w))),
{
    let ab = a.subrange(ia, ia + w);
    let bb = b.subrange(ib, ib + w);
    lemma_inter_contains(ab, bb);
    lemma_inter_sorted(ab, bb);
    assert forall|v: i32| #[trigger] inter(ab, bb).contains(v) implies v >= frontier(a, b, ia, ib)
        && a.contains(v) && b.contains(v) by {
        lemma_block_member(a, ia, w, v);
        lemma_block_member(b, ib, w, v);
    }
}

proof fn lemma_tail(s: Seq<i32>, i: int)
    requires
        sorted(s),
        0 <= i <= s.len(),
    ensures
        forall|v: i32| #[trigger] s.subrange(i, s.len() as int).contains(v) <==> (s.contains(v)
            && v >= lo(s, i)),
{
    assert forall|v: i32| #[trigger] s.subrange(i, s.len() as int).contains(v) <==> (s.contains(v)
        && v >= lo(s, i)) by {
        let t = s.subrange(i, s.len() as int);
        if t.contains(v) {
            let k = choose|k: int| 0 <= k < t.len() && t[k] == v;
            assert(s[i + k] == v);
            if k > 0 {
                assert(s[i] < s[i + k]);
            }
        }
        if s.contains(v) && v >= lo(s, i) {
            let k = choose|k: int| 0 <= k < s.len() && s[k] == v;
            if k < i {
                assert(s[k] < s[i]);
            }
            assert(t[k - i] == v);
        }
    }
}

/// Masked compression of a block by a mask that marks membership in `t` is
/// the intersection of the block with `t`.
pub(crate) proof fn lemma_compress_inter(v: Seq<i32>, mask: u64, t: Seq<i32>)
    requires
        forall|i: int| 0 <= i < v.len() ==> (lane_on(mask, i) <==> t.contains(#[trigger] v[i])),
    ensures
        compress(v, mask) == inter(v, t),
    decreases v.len(),
{
    if v.len() > 0 {
        lemma_compress_inter(v.drop_last(), mask, t);
        assert(lane_on(mask, v.len() - 1) <==> t.contains(v[v.len() - 1]));
    }
}

pub(crate) proof fn lemma_lane_set(mask: u64, l: u64, j: u64)
    requires
        l < 64,
        j < 64,
    ensures
        ((mask | (1u64 << l)) >> j) & 1u64 == 1u64 <==> ((mask >> j) & 1u64 == 1u64 || j == l),
{
    assert(((mask | (1u64 << l)) >> j) & 1u64 == 1u64 <==> ((mask >> j) & 1u64 == 1u64 || j == l))
        by (bit_vector)
        requires
            l < 64,
            j < 64,
    ;
}

pub(crate) proof fn lemma_lane_zero(j: u64)
    requires
        j < 64,
    ensures
        !((0u64 >> j) & 1u64 == 1u64),
{
    assert(!((0u64 >> j) & 1u64 == 1u64)) by (bit_vector);
}

/// Lane `l` of the `a` block equals lane `l` of the `b` block rotated by `rot`.
pub open spec fn hit(a: Seq<i32>, ia: int, b: Seq<i32>, ib: int, w: int, l: int, rot: int) -> bool {
    a[ia + l] == b[ib + rotated(l, rot, w)]
}

/// Compares the block `a[ia..ia + w]` against all `w` rotations of the block
/// `b[ib..ib + w]` and ORs the equalities into one mask over the `a` lanes.
fn block_mask(a: &[i32], ia: usize, b: &[i32], ib: usize, w: usize) -> (mask: u64)
    requires
        1 <= w <= 64,
        ia + w <= a@.len(),
        ib + w <= b@.len(),
    ensures
        forall|l: int|
            0 <= l < w ==> (lane_on(mask, l) <==> b@.subrange(ib as int, ib + w).contains(
                #[trigger] a@[ia + l],
            )),
{
    let na = a.len();
    let nb = b.len();
    let mut mask: u64 = 0;
    let mut rot: usize = 0;
    proof {
        assert forall|l: int| 0 <= l < w implies !lane_on(mask, l) by {
            lemma_lane_zero(l as u64);
        }
    }
    while rot < w
        invariant
            1 <= w <= 64,
            ia + w <= a@.len(),
            ib + w <= b@.len(),
            na == a@.len(),
            nb == b@.len(),
            rot <= w,
            forall|l: int|
                0 <= l < w ==> (lane_on(mask, l) <==> exists|r: int|
                    0 <= r < rot && #[trigger] hit(a@, ia as int, b@, ib as int, w as int, l, r)),
        decreases w - rot,
    {
        let mut l: usize = 0;
        while l < w
            invariant
                1 <= w <= 64,
                ia + w <= a@.len(),
                ib + w <= b@.len(),
                na == a@.len(),
                nb == b@.len(),
                rot < w,
                l <= w,
                forall|j: int|
                    0 <= j < w ==> (lane_on(mask, j) <==> (exists|r: int|
                        0 <= r < rot && #[trigger] hit(a@, ia as int, b@, ib as int, w as int, j, r))
                        || (j < l && hit(a@, ia as int, b@, ib as int, w as int, j, rot as int))),
            decreases w - l,
        {
            let idx = if l + rot < w {
                l + rot
            } else {
                l + rot - w
            };
            if a[ia + l] == b[ib + idx] {
                let old_mask = mask;
                mask = mask | (1u64 << (l as u64));
                proof {
                    assert forall|j: int| 0 <= j < w implies (lane_on(mask, j) <==> (lane_on(
                        old_mask,
                        j,
                    ) || j == l)) by {
                        lemma_lane_set(old_mask, l as u64, j as u64);
                    }
                }
            }
            l = l + 1;
        }
        rot = rot + 1;
        proof {
            assert forall|j: int|
                0 <= j < w implies (lane_on(mask, j) <==> exists|r: int|
                    0 <= r < rot && #[trigger] hit(a@, ia as int, b@, ib as int, w as int, j, r)) by {
                if lane_on(mask, j) {
                    if !(exists|r: int|
                        0 <= r < rot - 1 && #[trigger] hit(a@, ia as int, b@, ib as int, w as int, j, r)) {
                        assert(hit(a@, ia as int, b@, ib as int, w as int, j, rot - 1));
                    }
                }
            }
        }
    }
    proof {
        let blk = b@.subrange(ib as int, ib + w);
        assert forall|l: int| 0 <= l < w implies (lane_on(mask, l) <==> blk.contains(
            #[trigger] a@[ia + l],
        )) by {
            if lane_on(mask, l) {
                let r = choose|r: int|
                    0 <= r < rot && #[trigger] hit(a@, ia as int, b@, ib as int, w as int, l, r);
                assert(blk[rotated(l, r, w as int)] == a@[ia + l]);
            }
            if blk.contains(a@[ia + l]) {
                let k = choose|k: int| 0 <= k < w && blk[k] == a@[ia + l];
                let r = if k >= l {
                    k - l
                } else {
                    k + w - l
                };
                assert(hit(a@, ia as int, b@, ib as int, w as int, l, r));
            }
        }
    }
    mask
}

/// Block intersection over tiles of `w` elements per side: every element of
/// the `a` tile is compared with every element of the `b` tile, the tile with
/// the smaller last element advances, and a branchless merge finishes the two
/// remainders. The shuffling kernels are its vector forms, the BMISS scalar
/// kernels its small-tile forms.
pub(crate) fn shuffling_lanes<V: Visitor>(a: &[i32], b: &[i32], w: usize, visitor: &mut V)
    requires
        sorted(a@),
        sorted(b@),
        1 <= w <= 64,
        old(visitor).inv(),
        inter(a@, b@).len() <= old(visitor).room(),
    ensures
        final(visitor).inv(),
        final(visitor).seen() == old(visitor).seen() + inter(a@, b@),
        final(visitor).room() == old(visitor).room() - inter(a@, b@).len(),
{
    let na = a.len();
    let nb = b.len();
    let mut ia: usize = 0;
    let mut ib: usize = 0;
    let ghost mut e: Seq<i32> = Seq::empty();
    let mut go = w <= na && w <= nb;
    proof {
        lemma_inter_contains(a@, b@);
        lemma_inter_sorted(a@, b@);
        assert forall|v: i32| !(a@.contains(v) && b@.contains(v) && v < frontier(a@, b@, 0, 0)) by {
            if a@.contains(v) && b@.contains(v) {
                lemma_tail(a@, 0);
                lemma_tail(b@, 0);
                assert(a@.subrange(0, a@.len() as int) =~= a@);
                assert(b@.subrange(0, b@.len() as int) =~= b@);
            }
        }
        assert(visitor.seen() =~= old(visitor).seen() + e);
    }
    while go
        invariant
            sorted(a@),
            sorted(b@),
            1 <= w <= 64,
            na == a@.len(),
            nb == b@.len(),
            ia <= na,
            ib <= nb,
            go ==> ia + w <= na && ib + w <= nb,
            !go ==> (ia + w > na || ib + w > nb),
            visitor.inv(),
            visitor.seen() == old(visitor).seen() + e,
            visitor.room() == old(visitor).room() - e.len(),
            inter(a@, b@).len() <= old(visitor).room(),
            sorted(e),
            forall|v: i32| #[trigger] e.contains(v) <==> (a@.contains(v) && b@.contains(v) && v
                < frontier(a@, b@, ia as int, ib as int)),
            forall|v: i32| #[trigger] inter(a@, b@).contains(v) <==> (a@.contains(v) && b@.contains(v)),
        decreases na - ia + nb - ib,
    {
        let mask = block_mask(a, ia, b, ib, w);
        let blk = vstd::slice::slice_subrange(a, ia, ia + w);
        let ghost ab = a@.subrange(ia as int, ia + w);
        let ghost bb = b@.subrange(ib as int, ib + w);
        let ghost m = inter(ab, bb);
        proof {
            assert forall|i: int| 0 <= i < blk@.len() implies (lane_on(mask, i) <==> bb.contains(
                #[trigger] blk@[i],
            )) by {
                assert(blk@[i] == a@[ia + i]);
            }
            lemma_compress_inter(blk@, mask, bb);
            lemma_inter_contains(ab, bb);
            lemma_block_matches(a@, b@, ia as int, ib as int, w as int);
            assert forall|i: int, j: int| 0 <= i < e.len() && 0 <= j < m.len() implies e[i] < m[j] by {
                assert(e.contains(e[i]));
                assert(m.contains(m[j]));
            }
            lemma_concat_sorted(e, m);
            assert forall|k: int| 0 <= k < (e + m).len() implies inter(a@, b@).contains(
                #[trigger] (e + m)[k],
            ) by {
                assert((e + m).contains((e + m)[k]));
            }
            lemma_sorted_sub_len(e + m, inter(a@, b@));
        }
        visit_vector(visitor, blk, mask);
        let a_max = a[ia + w - 1];
        let b_max = b[ib + w - 1];
        let ghost ia0 = ia as int;
        let ghost ib0 = ib as int;
        if a_max <= b_max {
            ia = ia + w;
            if w > na - ia {
                go = false;
            }
        }
        if go && b_max <= a_max {
            ib = ib + w;
            if w > nb - ib {
                go = false;
            }
        }
        proof {
            lemma_block_step(a@, b@, ia0, ib0, w as int, ia as int, ib as int);
            assert forall|v: i32| #[trigger] (e + m).contains(v) <==> (a@.contains(v) && b@.contains(
                v,
            ) && v < frontier(a@, b@, ia as int, ib as int)) by {
                assert(ab.contains(v) ==> ab.contains(v));
                assert(e.contains(v) <==> (a@.contains(v) && b@.contains(v) && v < frontier(
                    a@,
                    b@,
                    ia0,
                    ib0,
                )));
                assert(m.contains(v) <==> (ab.contains(v) && bb.contains(v)));
            }
            assert(old(visitor).seen() + e + m =~= old(visitor).seen() + (e + m));
            e = e + m;
        }
    }
    let ta = vstd::slice::slice_subrange(a, ia, na);
    let tb = vstd::slice::slice_subrange(b, ib, nb);
    let ghost t = inter(ta@, tb@);
    proof {
        lemma_tail(a@, ia as int);
        lemma_tail(b@, ib as int);
        lemma_inter_contains(ta@, tb@);
        lemma_inter_sorted(ta@, tb@);
        assert forall|i: int, j: int| 0 <= i < e.len() && 0 <= j < t.len() implies e[i] < t[j] by {
            assert(e.contains(e[i]));
            assert(t.contains(t[j]));
        }
        lemma_concat_sorted(e, t);
        assert forall|k: int| 0 <= k < (e + t).len() implies inter(a@, b@).contains(
            #[trigger] (e + t)[k],
        ) by {
            assert((e + t).contains((e + t)[k]));
        }
        lemma_sorted_sub_len(e + t, inter(a@, b@));
        lemma_sorted_eq(e + t, inter(a@, b@));
    }
    branchless_merge(ta, tb, visitor);
    proof {
        assert(old(visitor).seen() + e + t =~= old(visitor).seen() + (e + t));
    }
}

/// Shuffling intersection with 4-lane blocks.
pub fn simd_shuffling<V: Visitor>(set_a: &[i32], set_b: &[i32], visitor: &mut V)
    requires
        sorted(set_a@),
        sorted(set_b@),
        old(visitor).inv(),
        inter(set_a@, set_b@).len() <= old(visitor).room(),
    ensures
        final(visitor).inv(),
        final(visitor).seen() == old(visitor).seen() + inter(set_a@, set_b@),
        final(visitor).room() == old(visitor).room() - inter(set_a@, set_b@).len(),
{
    shuffling_lanes(set_a, set_b, 4, visitor)
}

/// Shuffling intersection with 8-lane blocks.
pub fn simd_shuffling_avx2<V: Visitor>(set_a: &[i32], set_b: &[i32], visitor: &mut V)
    requires
        sorted(set_a@),
        sorted(set_b@),
        old(visitor).inv(),
        inter(set_a@, set_b@).len() <= old(visitor).room(),
    ensures
        final(visitor).inv(),
        final(visitor).seen() == old(visitor).seen() + inter(set_a@, set_b@),
        final(visitor).room() == old(visitor).room() - inter(set_a@, set_b@).len(),
{
    shuffling_lanes(set_a, set_b, 8, visitor)
}

/// Shuffling intersection with 16-lane blocks.
pub fn simd_shuffling_avx512<V: Visitor>(set_a: &[i32], set_b: &[i32], visitor: &mut V)
    requires
        sorted(set_a@),
        sorted(set_b@),
        old(visitor).inv(),
        inter(set_a@, set_b@).len() <= old(visitor).room(),
    ensures
        final(visitor).inv(),
        final(visitor).seen() == old(visitor).seen() + inter(set_a@, set_b@),
        final(visitor).room() == old(visitor).room() - inter(set_a@, set_b@).len(),
{
    shuffling_lanes(set_a, set_b, 16, visitor)
}

} // verus!
