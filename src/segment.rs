//! Intersection of two FESIA segments. Small segments go to fixed-size
//! micro-kernels chosen by the control byte `(min_size << 3) | max_size`;
//! these may compare up to eight elements of the larger side past its
//! logical end, which cannot produce a false match because those elements
//! belong to other segments.
use vstd::prelude::*;
use crate::merge::branchless_merge;
use crate::sets::{inter, lemma_inter_comm, lemma_inter_contains, lemma_inter_sorted, lemma_sorted_eq, sorted};
use crate::shuffling::{
    lemma_compress_inter, lemma_lane_set, lemma_lane_zero, simd_shuffling, simd_shuffling_avx2, simd_shuffling_avx512,
};
use crate::visitor::{lane_on, visit_vector, VecWriter, Visitor};

verus! {

/// Largest segment size handled by a micro-kernel.
pub const MAX_KERNEL: usize = 7;

/// Elements a micro-kernel may read from each side.
pub const OVERFLOW: usize = 8;

/// Among the first `OVERFLOW` elements of each side, none past one side's
/// logical end occurs in the other side's segment.
pub open spec fn slack_disjoint(a: Seq<i32>, size_a: int, b: Seq<i32>, size_b: int) -> bool {
    &&& forall|k: int| size_b <= k < b.len() && k < OVERFLOW ==> !a.take(size_a).contains(#[trigger] b[k])
    &&& forall|k: int| size_a <= k < a.len() && k < OVERFLOW ==> !b.take(size_b).contains(#[trigger] a[k])
}

/// A segment pair goes to a micro-kernel: both segments are small and both
/// slices have `OVERFLOW` elements to read.
pub open spec fn micro_path(a: Seq<i32>, size_a: int, b: Seq<i32>, size_b: int) -> bool {
    size_a <= MAX_KERNEL && size_b <= MAX_KERNEL && a.len() >= OVERFLOW && b.len() >= OVERFLOW
}

/// What a segment pair must satisfy: sizes within the slices, sorted
/// segments, and on the micro-kernel path non-empty segments whose slack
/// cannot match.
pub open spec fn segment_pair_ok(a: Seq<i32>, size_a: int, b: Seq<i32>, size_b: int) -> bool {
    &&& 0 <= size_a <= a.len()
    &&& 0 <= size_b <= b.len()
    &&& sorted(a.take(size_a))
    &&& sorted(b.take(size_b))
    &&& micro_path(a, size_a, b, size_b) ==> (1 <= size_a && 1 <= size_b && slack_disjoint(
        a,
        size_a,
        b,
        size_b,
    ))
}

/// A micro-kernel: `small` elements of one side against a vector of
/// `large` elements of the other.
#[derive(Clone, Copy, Debug, PartialEq, Eq, Structural)]
pub struct MicroKernel {
    pub small: usize,
    pub large: usize,
}

/// The micro-kernel for a control byte, if there is one.
pub open spec fn kernel_for(ctrl: int) -> Option<MicroKernel> {
    let m = ctrl / 8;
    let l = ctrl % 8;
    if 0 <= ctrl && 1 <= m <= l {
        Some(MicroKernel { small: m as usize, large: if l <= 4 { 4 } else { 8 } })
    } else {
        None
    }
}

/// Runs a micro-kernel: each of the first `k.small` elements of `small` is
/// compared with the first `k.large` elements of `large`, and the matches are
/// stored compressed.
pub fn run_micro<V: Visitor>(small: &[i32], large: &[i32], k: MicroKernel, visitor: &mut V)
    requires
        1 <= k.small <= MAX_KERNEL,
        k.large == 4 || k.large == 8,
        k.small <= small@.len(),
        k.large <= large@.len(),
        sorted(small@.take(k.small as int)),
        old(visitor).inv(),
        inter(small@.take(k.small as int), large@.take(k.large as int)).len() <= old(visitor).room(),
    ensures
        final(visitor).inv(),
        final(visitor).seen() == old(visitor).seen() + inter(
            small@.take(k.small as int),
            large@.take(k.large as int),
        ),
        final(visitor).room() == old(visitor).room() - inter(
            small@.take(k.small as int),
            large@.take(k.large as int),
        ).len(),
{
    let ghost lv = large@.take(k.large as int);
    let mut mask: u64 = 0;
    let mut i: usize = 0;
    proof {
        assert forall|l: int| 0 <= l < 64 implies !lane_on(mask, l) by {
            lemma_lane_zero(l as u64);
        }
    }
    while i < k.small
        invariant
            1 <= k.small <= MAX_KERNEL,
            k.large <= large@.len(),
            k.small <= small@.len(),
            lv == large@.take(k.large as int),
            i <= k.small,
            forall|l: int| 0 <= l < i ==> (lane_on(mask, l) <==> lv.contains(#[trigger] small@[l])),
            forall|l: int| i <= l < 64 ==> !lane_on(mask, l),
        decreases k.small - i,
    {
        let x = small[i];
        let mut found = false;
        let mut j: usize = 0;
        while j < k.large
            invariant
                k.large <= large@.len(),
                lv == large@.take(k.large as int),
                j <= k.large,
                found <==> exists|q: int| 0 <= q < j && #[trigger] large@[q] == x,
            decreases k.large - j,
        {
            if large[j] == x {
                found = true;
            }
            j = j + 1;
        }
        proof {
            if found {
                let q = choose|q: int| 0 <= q < j && #[trigger] large@[q] == x;
                assert(lv[q] == x);
            }
            if lv.contains(x) {
                let q = choose|q: int| 0 <= q < lv.len() && lv[q] == x;
                assert(large@[q] == x);
            }
        }
        if found {
            let old_mask = mask;
            mask = mask | (1u64 << (i as u64));
            proof {
                assert forall|l: int| 0 <= l < 64 implies (lane_on(mask, l) <==> (lane_on(old_mask, l)
                    || l == i)) by {
                    lemma_lane_set(old_mask, i as u64, l as u64);
                }
            }
        }
        i = i + 1;
    }
    let lanes = vstd::slice::slice_subrange(small, 0, k.small);
    proof {
        assert(lanes@ == small@.take(k.small as int));
        lemma_compress_inter(lanes@, mask, lv);
    }
    visit_vector(visitor, lanes, mask);
}

/// Widening the second argument by elements absent from the first leaves the
/// intersection unchanged.
proof fn lemma_inter_widen(s: Seq<i32>, t: Seq<i32>, l: int, n: int)
    requires
        sorted(s),
        0 <= l <= n <= t.len(),
        forall|k: int| l <= k < n ==> !s.contains(#[trigger] t[k]),
    ensures
        inter(s, t.take(n)) == inter(s, t.take(l)),
{
    lemma_inter_contains(s, t.take(n));
    lemma_inter_contains(s, t.take(l));
    lemma_inter_sorted(s, t.take(n));
    lemma_inter_sorted(s, t.take(l));
    assert forall|v: i32| inter(s, t.take(n)).contains(v) <==> inter(s, t.take(l)).contains(v) by {
        if s.contains(v) && t.take(n).contains(v) {
            let k = choose|k: int| 0 <= k < n && t.take(n)[k] == v;
            if k >= l {
                assert(!s.contains(t[k]));
            }
            assert(t.take(l)[k] == v);
        }
        if t.take(l).contains(v) {
            let k = choose|k: int| 0 <= k < l && t.take(l)[k] == v;
            assert(t.take(n)[k] == v);
        }
    }
    lemma_sorted_eq(inter(s, t.take(n)), inter(s, t.take(l)));
}

/// The micro-kernel path of a segment intersection: picks the smaller side,
/// runs `k` on it, and relates the result to the exact segments.
fn segment_micro<V: Visitor>(
    set_a: &[i32],
    set_b: &[i32],
    size_a: usize,
    size_b: usize,
    k: MicroKernel,
    visitor: &mut V,
)
    requires
        1 <= size_a <= MAX_KERNEL,
        1 <= size_b <= MAX_KERNEL,
        OVERFLOW <= set_a@.len(),
        OVERFLOW <= set_b@.len(),
        sorted(set_a@.take(size_a as int)),
        sorted(set_b@.take(size_b as int)),
        slack_disjoint(set_a@, size_a as int, set_b@, size_b as int),
        k.small == (if size_a <= size_b { size_a } else { size_b }),
        k.large == (if (if size_a <= size_b { size_b } else { size_a }) <= 4 { 4usize } else { 8usize }),
        old(visitor).inv(),
        inter(set_a@.take(size_a as int), set_b@.take(size_b as int)).len() <= old(visitor).room(),
    ensures
        final(visitor).inv(),
        final(visitor).seen() == old(visitor).seen() + inter(
            set_a@.take(size_a as int),
            set_b@.take(size_b as int),
        ),
        final(visitor).room() == old(visitor).room() - inter(
            set_a@.take(size_a as int),
            set_b@.take(size_b as int),
        ).len(),
{
    let ghost sa = set_a@.take(size_a as int);
    let ghost sb = set_b@.take(size_b as int);
    if size_a <= size_b {
        proof {
            assert forall|q: int| size_b <= q < k.large implies !sa.contains(#[trigger] set_b@[q]) by {}
            lemma_inter_widen(sa, set_b@, size_b as int, k.large as int);
        }
        run_micro(set_a, set_b, k, visitor);
    } else {
        proof {
            assert forall|q: int| size_a <= q < k.large implies !sb.contains(#[trigger] set_a@[q]) by {}
            lemma_inter_widen(sb, set_a@, size_a as int, k.large as int);
            lemma_inter_comm(sa, sb);
        }
        run_micro(set_b, set_a, k, visitor);
    }
}

/// Intersection of one segment pair: `set_a[..size_a]` against
/// `set_b[..size_b]`; each slice may run on into the following segments.
pub trait SegmentIntersect {
    fn intersect<V: Visitor>(
        set_a: &[i32],
        set_b: &[i32],
        size_a: usize,
        size_b: usize,
        visitor: &mut V,
    )
        requires
            segment_pair_ok(set_a@, size_a as int, set_b@, size_b as int),
            old(visitor).inv(),
            inter(set_a@.take(size_a as int), set_b@.take(size_b as int)).len() <= old(visitor).room(),
        ensures
            final(visitor).inv(),
            final(visitor).seen() == old(visitor).seen() + inter(
                set_a@.take(size_a as int),
                set_b@.take(size_b as int),
            ),
            final(visitor).room() == old(visitor).room() - inter(
                set_a@.take(size_a as int),
                set_b@.take(size_b as int),
            ).len(),
    ;
}

fn merge_prefixes<V: Visitor>(set_a: &[i32], set_b: &[i32], size_a: usize, size_b: usize, visitor: &mut V)
    requires
        size_a <= set_a@.len(),
        size_b <= set_b@.len(),
        sorted(set_a@.take(size_a as int)),
        sorted(set_b@.take(size_b as int)),
        old(visitor).inv(),
        inter(set_a@.take(size_a as int), set_b@.take(size_b as int)).len() <= old(visitor).room(),
    ensures
        final(visitor).inv(),
        final(visitor).seen() == old(visitor).seen() + inter(
            set_a@.take(size_a as int),
            set_b@.take(size_b as int),
        ),
        final(visitor).room() == old(visitor).room() - inter(
            set_a@.take(size_a as int),
            set_b@.take(size_b as int),
        ).len(),
{
    let a = vstd::slice::slice_subrange(set_a, 0, size_a);
    let b = vstd::slice::slice_subrange(set_b, 0, size_b);
    proof {
        assert(a@ == set_a@.take(size_a as int));
        assert(b@ == set_b@.take(size_b as int));
    }
    branchless_merge(a, b, visitor);
}

/// Micro-kernels selected by a `match` over ranges of the control byte.
pub struct SegmentIntersectSse;

impl SegmentIntersect for SegmentIntersectSse {
    fn intersect<V: Visitor>(
        set_a: &[i32],
        set_b: &[i32],
        size_a: usize,
        size_b: usize,
        visitor: &mut V,
    ) {
        if size_a > MAX_KERNEL || size_b > MAX_KERNEL || set_a.len() < OVERFLOW || set_b.len() < OVERFLOW {
            merge_prefixes(set_a, set_b, size_a, size_b, visitor);
            return;
        }
        let (small_size, large_size) = if size_a <= size_b {
            (size_a, size_b)
        } else {
            (size_b, size_a)
        };
        let ctrl = (small_size << 3usize) | large_size;
        assert(ctrl == small_size * 8 + large_size) by (bit_vector)
            requires
                small_size <= 7,
                large_size <= 7,
                ctrl == (small_size << 3usize) | large_size,
        ;
        let k = match ctrl {
            0o11..=0o14 => MicroKernel { small: 1, large: 4 },
            0o15..=0o17 => MicroKernel { small: 1, large: 8 },
            0o22..=0o24 => MicroKernel { small: 2, large: 4 },
            0o25..=0o27 => MicroKernel { small: 2, large: 8 },
            0o33..=0o34 => MicroKernel { small: 3, large: 4 },
            0o35..=0o37 => MicroKernel { small: 3, large: 8 },
            0o44 => MicroKernel { small: 4, large: 4 },
            0o45..=0o47 => MicroKernel { small: 4, large: 8 },
            0o55..=0o57 => MicroKernel { small: 5, large: 8 },
            0o66..=0o67 => MicroKernel { small: 6, large: 8 },
            _ => MicroKernel { small: 7, large: 8 },
        };
        segment_micro(set_a, set_b, size_a, size_b, k, visitor);
    }
}

/// Micro-kernels selected by a `match` with one arm per control byte.
pub struct SegmentIntersectSplatSse;

impl SegmentIntersect for SegmentIntersectSplatSse {
    fn intersect<V: Visitor>(
        set_a: &[i32],
        set_b: &[i32],
        size_a: usize,
        size_b: usize,
        visitor: &mut V,
    ) {
        if size_a > MAX_KERNEL || size_b > MAX_KERNEL || set_a.len() < OVERFLOW || set_b.len() < OVERFLOW {
            merge_prefixes(set_a, set_b, size_a, size_b, visitor);
            return;
        }
        let (small_size, large_size) = if size_a <= size_b {
            (size_a, size_b)
        } else {
            (size_b, size_a)
        };
        let ctrl = (small_size << 3usize) | large_size;
        assert(ctrl == small_size * 8 + large_size) by (bit_vector)
            requires
                small_size <= 7,
                large_size <= 7,
                ctrl == (small_size << 3usize) | large_size,
        ;
        let k = match ctrl {
            0o11 => MicroKernel { small: 1, large: 4 },
            0o12 => MicroKernel { small: 1, large: 4 },
            0o13 => MicroKernel { small: 1, large: 4 },
            0o14 => MicroKernel { small: 1, large: 4 },
            0o15 => MicroKernel { small: 1, large: 8 },
            0o16 => MicroKernel { small: 1, large: 8 },
            0o17 => MicroKernel { small: 1, large: 8 },
            0o22 => MicroKernel { small: 2, large: 4 },
            0o23 => MicroKernel { small: 2, large: 4 },
            0o24 => MicroKernel { small: 2, large: 4 },
            0o25 => MicroKernel { small: 2, large: 8 },
            0o26 => MicroKernel { small: 2, large: 8 },
            0o27 => MicroKernel { small: 2, large: 8 },
            0o33 => MicroKernel { small: 3, large: 4 },
            0o34 => MicroKernel { small: 3, large: 4 },
            0o35 => MicroKernel { small: 3, large: 8 },
            0o36 => MicroKernel { small: 3, large: 8 },
            0o37 => MicroKernel { small: 3, large: 8 },
            0o44 => MicroKernel { small: 4, large: 4 },
            0o45 => MicroKernel { small: 4, large: 8 },
            0o46 => MicroKernel { small: 4, large: 8 },
            0o47 => MicroKernel { small: 4, large: 8 },
            0o55 => MicroKernel { small: 5, large: 8 },
            0o56 => MicroKernel { small: 5, large: 8 },
            0o57 => MicroKernel { small: 5, large: 8 },
            0o66 => MicroKernel { small: 6, large: 8 },
            0o67 => MicroKernel { small: 6, large: 8 },
            _ => MicroKernel { small: 7, large: 8 },
        };
        segment_micro(set_a, set_b, size_a, size_b, k, visitor);
    }
}

/// The table of micro-kernels indexed by control byte; `None` where no
/// kernel applies.
pub fn kernel_table() -> (t: Vec<Option<MicroKernel>>)
    ensures
        t@.len() == 0o100,
        forall|c: int| 0 <= c < 0o100 ==> #[trigger] t@[c] == kernel_for(c),
{
    let mut result: Vec<Option<MicroKernel>> = Vec::new();
    let mut ctrl: usize = 0;
    while ctrl < 0o100
        invariant
            ctrl <= 0o100,
            result@.len() == ctrl,
            forall|c: int| 0 <= c < ctrl ==> #[trigger] result@[c] == kernel_for(c),
        decreases 0o100 - ctrl,
    {
        let entry = match ctrl {
            0o11..=0o14 => Some(MicroKernel { small: 1, large: 4 }),
            0o15..=0o17 => Some(MicroKernel { small: 1, large: 8 }),
            0o22..=0o24 => Some(MicroKernel { small: 2, large: 4 }),
            0o25..=0o27 => Some(MicroKernel { small: 2, large: 8 }),
            0o33..=0o34 => Some(MicroKernel { small: 3, large: 4 }),
            0o35..=0o37 => Some(MicroKernel { small: 3, large: 8 }),
            0o44 => Some(MicroKernel { small: 4, large: 4 }),
            0o45..=0o47 => Some(MicroKernel { small: 4, large: 8 }),
            0o55..=0o57 => Some(MicroKernel { small: 5, large: 8 }),
            0o66..=0o67 => Some(MicroKernel { small: 6, large: 8 }),
            0o77 => Some(MicroKernel { small: 7, large: 8 }),
            _ => None,
        };
        result.push(entry);
        ctrl = ctrl + 1;
    }
    result
}

/// Micro-kernels looked up in `kernel_table`.
pub struct SegmentIntersectTableSse;

impl SegmentIntersect for SegmentIntersectTableSse {
    fn intersect<V: Visitor>(
        set_a: &[i32],
        set_b: &[i32],
        size_a: usize,
        size_b: usize,
        visitor: &mut V,
    ) {
        if size_a > MAX_KERNEL || size_b > MAX_KERNEL || set_a.len() < OVERFLOW || set_b.len() < OVERFLOW {
            merge_prefixes(set_a, set_b, size_a, size_b, visitor);
            return;
        }
        let (small_size, large_size) = if size_a <= size_b {
            (size_a, size_b)
        } else {
            (size_b, size_a)
        };
        let ctrl = (small_size << 3usize) | large_size;
        assert(ctrl == small_size * 8 + large_size) by (bit_vector)
            requires
                small_size <= 7,
                large_size <= 7,
                ctrl == (small_size << 3usize) | large_size,
        ;
        assert(ctrl / 8 == small_size && ctrl % 8 == large_size);
        let table = kernel_table();
        match table[ctrl] {
            Some(k) => segment_micro(set_a, set_b, size_a, size_b, k, visitor),
            None => {
                assert(false);
            },
        }
    }
}

/// The 4-lane shuffling kernel on the exact segments.
pub struct SegmentIntersectShufflingSse;

impl SegmentIntersect for SegmentIntersectShufflingSse {
    fn intersect<V: Visitor>(
        set_a: &[i32],
        set_b: &[i32],
        size_a: usize,
        size_b: usize,
        visitor: &mut V,
    ) {
        let a = vstd::slice::slice_subrange(set_a, 0, size_a);
        let b = vstd::slice::slice_subrange(set_b, 0, size_b);
        proof {
            assert(a@ == set_a@.take(size_a as int));
            assert(b@ == set_b@.take(size_b as int));
        }
        simd_shuffling(a, b, visitor);
    }
}

/// The 8-lane shuffling kernel on the exact segments.
pub struct SegmentIntersectShufflingAvx2;

impl SegmentIntersect for SegmentIntersectShufflingAvx2 {
    fn intersect<V: Visitor>(
        set_a: &[i32],
        set_b: &[i32],
        size_a: usize,
        size_b: usize,
        visitor: &mut V,
    ) {
        let a = vstd::slice::slice_subrange(set_a, 0, size_a);
        let b = vstd::slice::slice_subrange(set_b, 0, size_b);
        proof {
            assert(a@ == set_a@.take(size_a as int));
            assert(b@ == set_b@.take(size_b as int));
        }
        simd_shuffling_avx2(a, b, visitor);
    }
}

/// The 16-lane shuffling kernel on the exact segments.
pub struct SegmentIntersectShufflingAvx512;

impl SegmentIntersect for SegmentIntersectShufflingAvx512 {
    fn intersect<V: Visitor>(
        set_a: &[i32],
        set_b: &[i32],
        size_a: usize,
        size_b: usize,
        visitor: &mut V,
    ) {
        let a = vstd::slice::slice_subrange(set_a, 0, size_a);
        let b = vstd::slice::slice_subrange(set_b, 0, size_b);
        proof {
            assert(a@ == set_a@.take(size_a as int));
            assert(b@ == set_b@.take(size_b as int));
        }
        simd_shuffling_avx512(a, b, visitor);
    }
}

/// One segment pair through the one-arm-per-byte micro-kernel selection,
/// into a growable buffer.
pub fn segment_comp(set_a: &[i32], set_b: &[i32], size_a: usize, size_b: usize, visitor: &mut VecWriter)
    requires
        segment_pair_ok(set_a@, size_a as int, set_b@, size_b as int),
        inter(set_a@.take(size_a as int), set_b@.take(size_b as int)).len() <= old(visitor).room(),
    ensures
        final(visitor).seen() == old(visitor).seen() + inter(
            set_a@.take(size_a as int),
            set_b@.take(size_b as int),
        ),
{
    SegmentIntersectSplatSse::intersect(set_a, set_b, size_a, size_b, visitor)
}

} // verus!
