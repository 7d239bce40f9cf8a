//! The FESIA index (Zhang et al., ICDE 2020): a sorted set split by a mixing
//! hash into segments, with a bitmap of the occupied hash buckets.
use vstd::prelude::*;
use crate::sets::{inter, lemma_inter_contains, lemma_sorted_eq, sorted};
use crate::segment::{
    segment_pair_ok, slack_disjoint, SegmentIntersect, SegmentIntersectShufflingSse, SegmentIntersectSplatSse,
    SegmentIntersectSse, SegmentIntersectTableSse,
};
use crate::visitor::Visitor;
use vstd::slice::SliceAdditionalExecFns;
use std::marker::PhantomData;

verus! {

/// Smallest number of hash buckets of an index.
pub const MIN_HASH_SIZE: usize = 512;

/// Largest number of hash buckets: a masked hash must fit an `i32`.
pub const MAX_HASH_SIZE: usize = 0x4000_0000;

/// An integer hash with a pure specification.
pub trait IntegerHash {
    spec fn spec_hash(item: i32) -> i32;

    fn hash(item: i32) -> (r: i32)
        ensures
            r == Self::spec_hash(item),
    ;
}

/// The identity: every value is its own hash.
pub struct IdentityHash;

impl IntegerHash for IdentityHash {
    open spec fn spec_hash(item: i32) -> i32 {
        item
    }

    fn hash(item: i32) -> (r: i32) {
        item
    }
}

/// A 32-bit integer avalanche mix.
pub struct MixHash;

pub open spec fn mix(item: i32) -> i32 {
    let k1 = (!item).wrapping_add(item.wrapping_shl(15));
    let k2 = k1 ^ k1.wrapping_shr(12);
    let k3 = k2.wrapping_add(k2.wrapping_shl(2));
    let k4 = k3 ^ k3.wrapping_shr(4);
    let k5 = k4.wrapping_mul(2057);
    k5 ^ k5.wrapping_shr(16)
}

impl IntegerHash for MixHash {
    open spec fn spec_hash(item: i32) -> i32 {
        mix(item)
    }

    fn hash(item: i32) -> (r: i32) {
        let mut key = item;
        key = (!key).wrapping_add(key.wrapping_shl(15));
        key = key ^ key.wrapping_shr(12);
        key = key.wrapping_add(key.wrapping_shl(2));
        key = key ^ key.wrapping_shr(4);
        key = key.wrapping_mul(2057);
        key = key ^ key.wrapping_shr(16);
        key
    }
}

/// The bucket of a hash value among `hash_size` buckets.
pub open spec fn mask_hash(h: i32, hash_size: usize) -> int {
    (h & ((hash_size as i32) - 1i32) as i32) as int
}

proof fn lemma_mask_range(h: i32, m: i32)
    requires
        m >= 0,
    ensures
        0 <= (h & m) <= m,
{
    assert(0 <= (h & m) <= m) by (bit_vector)
        requires
            m >= 0,
    ;
}

/// The hash of `item` reduced to one of `hash_size` buckets.
pub fn masked_hash<H: IntegerHash>(item: i32, hash_size: usize) -> (r: i32)
    requires
        1 <= hash_size <= MAX_HASH_SIZE,
    ensures
        r == mask_hash(H::spec_hash(item), hash_size),
        0 <= r < hash_size,
{
    let h = H::hash(item);
    let m: i32 = (hash_size as i32) - 1;
    proof {
        lemma_mask_range(h, m);
    }
    h & m
}

/// A hash scale as a ratio: the index gets about `len * numer / denom`
/// buckets.
#[derive(Clone, Copy, Debug, PartialEq, Eq, Structural)]
pub struct HashScale {
    pub numer: u32,
    pub denom: u32,
}

/// Instruction-set width the index's segment bitmaps are laid out for.
#[derive(Clone, Copy, Debug, PartialEq, Eq, Structural)]
pub enum SimdType {
    Sse,
    Avx2,
    Avx512,
}

impl SimdType {
    pub open spec fn spec_bits(self) -> usize {
        match self {
            SimdType::Sse => 128,
            SimdType::Avx2 => 256,
            SimdType::Avx512 => 512,
        }
    }

    /// Width of a vector register in bits.
    pub fn bits(&self) -> (r: usize)
        ensures
            r == self.spec_bits(),
    {
        match self {
            SimdType::Sse => 128,
            SimdType::Avx2 => 256,
            SimdType::Avx512 => 512,
        }
    }
}

/// How two indexes are intersected.
#[derive(Clone, Copy, Debug, PartialEq, Eq, Structural)]
pub enum FesiaIntersectMethod {
    SimilarSize,
    SimilarSizeShuffling,
    SimilarSizeSplat,
    SimilarSizeTable,
    Skewed,
}

pub open spec fn is_pow2(n: int) -> bool
    decreases n,
{
    if n <= 1 {
        n == 1
    } else {
        n % 2 == 0 && is_pow2(n / 2)
    }
}

/// `ceil(n * numer / denom)`: the bucket count an index of `n` elements asks
/// for before rounding up to a power of two and to the minimum size.
pub open spec fn wanted_buckets(n: int, scale: HashScale) -> int {
    (n * scale.numer + scale.denom - 1) / (scale.denom as int)
}

pub open spec fn valid_segment_bits(b: usize) -> bool {
    b == 8 || b == 16 || b == 32 || b == 64
}

/// Bit `i` of a byte.
pub open spec fn byte_bit(b: u8, i: int) -> bool {
    (b >> (i as u8)) & 1u8 == 1u8
}

proof fn lemma_byte_set(b: u8, j: u8, t: u8)
    requires
        j < 8,
        t < 8,
    ensures
        ((b | (1u8 << j)) >> t) & 1u8 == 1u8 <==> ((b >> t) & 1u8 == 1u8 || t == j),
{
    assert(((b | (1u8 << j)) >> t) & 1u8 == 1u8 <==> ((b >> t) & 1u8 == 1u8 || t == j))
        by (bit_vector)
        requires
            j < 8,
            t < 8,
    ;
}

proof fn lemma_byte_zero(t: u8)
    requires
        t < 8,
    ensures
        !((0u8 >> t) & 1u8 == 1u8),
{
    assert(!((0u8 >> t) & 1u8 == 1u8)) by (bit_vector);
}

/// A FESIA index over a sorted set: the elements regrouped by segment
/// (`reordered_set`), each segment's start and size, and one presence bit per
/// hash bucket. A segment covers `segment_bits` consecutive buckets.
pub struct Fesia<H: IntegerHash> {
    bitmap: Vec<u8>,
    sizes: Vec<i32>,
    offsets: Vec<i32>,
    reordered_set: Vec<i32>,
    hash_size: usize,
    segment_bits: usize,
    lanes: usize,
    hash_t: PhantomData<H>,
}

impl<H: IntegerHash> Fesia<H> {
    /// The elements, segment after segment.
    pub closed spec fn elements(&self) -> Seq<i32> {
        self.reordered_set@
    }

    pub closed spec fn buckets(&self) -> usize {
        self.hash_size
    }

    pub closed spec fn seg_bits(&self) -> usize {
        self.segment_bits
    }

    pub closed spec fn lane_count(&self) -> usize {
        self.lanes
    }

    /// Bucket of `x` in this index.
    pub open spec fn bucket(&self, x: i32) -> int {
        mask_hash(H::spec_hash(x), self.buckets())
    }

    /// Segment of `x` in this index.
    pub open spec fn segment_of(&self, x: i32) -> int {
        self.bucket(x) / (self.seg_bits() as int)
    }

    pub open spec fn spec_segment_count(&self) -> int {
        (self.buckets() as int) / (self.seg_bits() as int)
    }

    /// The presence bit of bucket `h`.
    pub closed spec fn bit(&self, h: int) -> bool {
        byte_bit(self.bitmap@[h / 8], h % 8)
    }

    pub closed spec fn start(&self, s: int) -> int {
        self.offsets@[s] as int
    }

    pub closed spec fn size(&self, s: int) -> int {
        self.sizes@[s] as int
    }

    /// The elements of segment `s`.
    pub open spec fn segment(&self, s: int) -> Seq<i32> {
        self.elements().subrange(self.start(s), self.start(s) + self.size(s))
    }

    #[verifier::opaque]
    pub closed spec fn wf(&self) -> bool {
        &&& MIN_HASH_SIZE <= self.hash_size <= MAX_HASH_SIZE
        &&& is_pow2(self.hash_size as int)
        &&& self.hash_size % 512 == 0
        &&& valid_segment_bits(self.segment_bits)
        &&& 1 <= self.lanes <= 64
        &&& self.segment_bits * self.lanes <= 512
        &&& self.bitmap@.len() == self.hash_size / 8
        &&& self.sizes@.len() == self.spec_segment_count()
        &&& self.offsets@.len() == self.spec_segment_count()
        &&& self.reordered_set@.len() <= i32::MAX
        &&& forall|s: int| 0 <= s < self.spec_segment_count() ==> 0 <= #[trigger] self.size(s)
        &&& forall|s: int| 0 <= s < self.spec_segment_count() ==> 0 <= #[trigger] self.start(s)
        &&& forall|s: int|
            0 <= s < self.spec_segment_count() ==> #[trigger] self.start(s) + self.size(s)
                <= self.reordered_set@.len()
        &&& self.start(0) == 0
        &&& forall|s: int|
            0 <= s < self.spec_segment_count() - 1 ==> #[trigger] self.start(s + 1) == self.start(s)
                + self.size(s)
        &&& self.start(self.spec_segment_count() - 1) + self.size(self.spec_segment_count() - 1)
            == self.reordered_set@.len()
        &&& forall|s: int|
            0 <= s < self.spec_segment_count() ==> sorted(#[trigger] self.segment(s))
        &&& forall|s: int, x: i32|
            0 <= s < self.spec_segment_count() && #[trigger] self.segment(s).contains(x)
                ==> self.segment_of(x) == s
        &&& self.reordered_set@.no_duplicates()
        &&& forall|p: int|
            0 <= p < self.reordered_set@.len() ==> 0 <= #[trigger] self.segment_of(
                self.reordered_set@[p],
            ) < self.spec_segment_count() && self.start(self.segment_of(self.reordered_set@[p]))
                <= p < self.start(self.segment_of(self.reordered_set@[p])) + self.size(
                self.segment_of(self.reordered_set@[p]),
            )
        &&& forall|h: int|
            0 <= h < self.hash_size ==> (#[trigger] self.bit(h) <==> exists|x: i32|
                self.elements().contains(x) && #[trigger] self.bucket(x) == h)
    }
}

/// Segment of `x` among `hash_size` buckets grouped by `segment_bits`.
pub open spec fn seg_of<H: IntegerHash>(x: i32, hash_size: usize, segment_bits: usize) -> int {
    mask_hash(H::spec_hash(x), hash_size) / (segment_bits as int)
}

proof fn lemma_pow2_double(x: int, y: int)
    requires
        is_pow2(x),
        is_pow2(y),
        x < y,
    ensures
        2 * x <= y,
    decreases y,
{
    if x != 1 {
        lemma_pow2_double(x / 2, y / 2);
    }
}

/// The least power of two that is at least `MIN_HASH_SIZE` and at least
/// `ceil(n * numer / denom)`.
fn bucket_count(n: usize, scale: HashScale) -> (hs: usize)
    requires
        n <= i32::MAX,
        scale.denom > 0,
        wanted_buckets(n as int, scale) <= MAX_HASH_SIZE,
    ensures
        MIN_HASH_SIZE <= hs <= MAX_HASH_SIZE,
        is_pow2(hs as int),
        hs % 512 == 0,
        hs >= wanted_buckets(n as int, scale),
        hs == MIN_HASH_SIZE || hs / 2 < wanted_buckets(n as int, scale),
{
    assert((n as int) * (scale.numer as int) <= 0x7fff_ffff * 0xffff_ffff) by (nonlinear_arith)
        requires
            n <= 0x7fff_ffff,
            scale.numer <= 0xffff_ffff,
    ;
    let product: u64 = (n as u64) * (scale.numer as u64);
    let target: u64 = (product + (scale.denom as u64) - 1) / (scale.denom as u64);
    assert(target == wanted_buckets(n as int, scale));
    let mut hs: usize = MIN_HASH_SIZE;
    assert(is_pow2(512)) by {
        reveal_with_fuel(is_pow2, 11);
    }
    assert(is_pow2(0x4000_0000)) by {
        reveal_with_fuel(is_pow2, 32);
    }
    while (hs as u64) < target
        invariant
            MIN_HASH_SIZE <= hs <= MAX_HASH_SIZE,
            is_pow2(hs as int),
            is_pow2(0x4000_0000),
            hs % 512 == 0,
            target <= MAX_HASH_SIZE,
            hs == MIN_HASH_SIZE || hs / 2 < target,
        decreases MAX_HASH_SIZE - hs,
    {
        proof {
            lemma_pow2_double(hs as int, 0x4000_0000);
            assert(is_pow2(2 * hs) ) by {
                assert((2 * hs) / 2 == hs);
            }
        }
        hs = hs * 2;
    }
    hs
}

proof fn lemma_segments_step<H: IntegerHash>(
    old_segs: Seq<Vec<i32>>,
    new_segs: Seq<Vec<i32>>,
    pre: Seq<i32>,
    item: i32,
    seg: int,
    hs: usize,
    sb: usize,
)
    requires
        old_segs.len() == new_segs.len(),
        0 <= seg < old_segs.len(),
        new_segs[seg]@ == old_segs[seg]@.push(item),
        forall|t: int| 0 <= t < old_segs.len() && t != seg ==> new_segs[t] == old_segs[t],
        seg_of::<H>(item, hs, sb) == seg,
        forall|t: int| 0 <= t < old_segs.len() ==> sorted(#[trigger] old_segs[t]@),
        forall|t: int, v: i32|
            0 <= t < old_segs.len() ==> (#[trigger] old_segs[t]@.contains(v) <==> (pre.contains(v)
                && seg_of::<H>(v, hs, sb) == t)),
        forall|k: int| 0 <= k < old_segs[seg]@.len() ==> old_segs[seg]@[k] < item,
    ensures
        forall|t: int| 0 <= t < new_segs.len() ==> sorted(#[trigger] new_segs[t]@),
        forall|t: int, v: i32|
            0 <= t < new_segs.len() ==> (#[trigger] new_segs[t]@.contains(v) <==> (pre.push(
                item,
            ).contains(v) && seg_of::<H>(v, hs, sb) == t)),
{
    let before = old_segs[seg]@;
    let cur = pre.push(item);
    assert forall|v: i32| #[trigger] cur.contains(v) <==> (pre.contains(v) || v == item) by {
        if cur.contains(v) && v != item {
            let k = choose|k: int| 0 <= k < cur.len() && cur[k] == v;
            assert(pre[k] == v);
        }
        if pre.contains(v) {
            let k = choose|k: int| 0 <= k < pre.len() && pre[k] == v;
            assert(cur[k] == v);
        }
        assert(cur[pre.len() as int] == item);
    }
    assert forall|v: i32| #[trigger] before.push(item).contains(v) <==> (before.contains(v) || v
        == item) by {
        if before.push(item).contains(v) && v != item {
            let k = choose|k: int| 0 <= k < before.len() + 1 && before.push(item)[k] == v;
            assert(before[k] == v);
        }
        if before.contains(v) {
            let k = choose|k: int| 0 <= k < before.len() && before[k] == v;
            assert(before.push(item)[k] == v);
        }
        assert(before.push(item)[before.len() as int] == item);
    }
    assert forall|t: int, v: i32| 0 <= t < new_segs.len() implies (#[trigger] new_segs[t]@.contains(
        v,
    ) <==> (cur.contains(v) && seg_of::<H>(v, hs, sb) == t)) by {
        if t == seg {
            assert(old_segs[t]@.contains(v) <==> (pre.contains(v) && seg_of::<H>(v, hs, sb) == t));
        } else {
            assert(old_segs[t]@.contains(v) <==> (pre.contains(v) && seg_of::<H>(v, hs, sb) == t));
        }
    }
    assert forall|t: int| 0 <= t < new_segs.len() implies sorted(#[trigger] new_segs[t]@) by {
        if t == seg {
            assert(sorted(old_segs[t]@));
        } else {
            assert(sorted(old_segs[t]@));
        }
    }
}

proof fn lemma_bitmap_step<H: IntegerHash>(
    old_map: Seq<u8>,
    new_map: Seq<u8>,
    items: Seq<i32>,
    i: int,
    h: int,
    hs: usize,
)
    requires
        0 <= i < items.len(),
        0 <= h < hs,
        hs % 8 == 0,
        old_map.len() == hs / 8,
        h == mask_hash(H::spec_hash(items[i]), hs),
        new_map == old_map.update(h / 8, old_map[h / 8] | (1u8 << ((h % 8) as u8))),
        forall|g: int|
            0 <= g < hs ==> (byte_bit(#[trigger] old_map[g / 8], g % 8) <==> exists|k: int|
                0 <= k < i && #[trigger] mask_hash(H::spec_hash(items[k]), hs) == g),
    ensures
        forall|g: int|
            0 <= g < hs ==> (byte_bit(#[trigger] new_map[g / 8], g % 8) <==> exists|k: int|
                0 <= k < i + 1 && #[trigger] mask_hash(H::spec_hash(items[k]), hs) == g),
{
    assert forall|g: int| 0 <= g < hs implies (byte_bit(#[trigger] new_map[g / 8], g % 8)
        <==> exists|k: int| 0 <= k < i + 1 && #[trigger] mask_hash(H::spec_hash(items[k]), hs) == g) by {
        assert(byte_bit(old_map[g / 8], g % 8) <==> exists|k: int|
            0 <= k < i && #[trigger] mask_hash(H::spec_hash(items[k]), hs) == g);
        if g / 8 == h / 8 {
            lemma_byte_set(old_map[g / 8], (h % 8) as u8, (g % 8) as u8);
            if g == h {
                assert(mask_hash(H::spec_hash(items[i]), hs) == g);
            } else {
                assert(g % 8 != h % 8);
            }
        } else {
            assert(new_map[g / 8] == old_map[g / 8]);
        }
        if exists|k: int| 0 <= k < i + 1 && #[trigger] mask_hash(H::spec_hash(items[k]), hs) == g {
            let k = choose|k: int| 0 <= k < i + 1 && #[trigger] mask_hash(H::spec_hash(items[k]), hs) == g;
            if k == i {
                assert(g == h);
            }
        }
    }
}

fn empty_segments(count: usize) -> (r: Vec<Vec<i32>>)
    ensures
        r@.len() == count,
        forall|t: int| 0 <= t < count ==> #[trigger] r@[t]@ == Seq::<i32>::empty(),
{
    let mut segments: Vec<Vec<i32>> = Vec::new();
    let mut s: usize = 0;
    while s < count
        invariant
            s <= count,
            segments@.len() == s,
            forall|t: int| 0 <= t < s ==> #[trigger] segments@[t]@ == Seq::<i32>::empty(),
        decreases count - s,
    {
        segments.push(Vec::new());
        s = s + 1;
    }
    segments
}

fn zero_bitmap(hs: usize) -> (r: Vec<u8>)
    requires
        hs % 8 == 0,
    ensures
        r@.len() == hs / 8,
        forall|h: int| 0 <= h < hs ==> !byte_bit(#[trigger] r@[h / 8], h % 8),
{
    let bitmap: Vec<u8> = vec![0u8; hs / 8];
    proof {
        assert forall|h: int| 0 <= h < hs implies !byte_bit(#[trigger] bitmap@[h / 8], h % 8) by {
            assert(h / 8 < hs / 8);
            assert(bitmap@[h / 8] == 0u8);
            lemma_byte_zero((h % 8) as u8);
        }
    }
    bitmap
}

/// First pass of the build: each element goes to its segment's list, in
/// input order, and its bucket's bit is set.
#[verifier::spinoff_prover]
#[verifier::rlimit(50)]
fn bucketize<H: IntegerHash>(items: &[i32], hs: usize, segment_bits: usize) -> (r: (
    Vec<Vec<i32>>,
    Vec<u8>,
))
    requires
        sorted(items@),
        MIN_HASH_SIZE <= hs <= MAX_HASH_SIZE,
        hs % 512 == 0,
        valid_segment_bits(segment_bits),
    ensures
        r.0@.len() == hs / segment_bits,
        r.1@.len() == hs / 8,
        forall|s: int| 0 <= s < r.0@.len() ==> sorted(#[trigger] r.0@[s]@),
        forall|s: int, v: i32|
            0 <= s < r.0@.len() ==> (#[trigger] r.0@[s]@.contains(v) <==> (items@.contains(v)
                && seg_of::<H>(v, hs, segment_bits) == s)),
        forall|h: int|
            0 <= h < hs ==> (byte_bit(#[trigger] r.1@[h / 8], h % 8) <==> exists|k: int|
                0 <= k < items@.len() && #[trigger] mask_hash(H::spec_hash(items@[k]), hs) == h),
{
    let count = hs / segment_bits;
    let mut segments = empty_segments(count);
    let mut bitmap = zero_bitmap(hs);
    let mut i: usize = 0;
    while i < items.len()
        invariant
            sorted(items@),
            MIN_HASH_SIZE <= hs <= MAX_HASH_SIZE,
            hs % 512 == 0,
            valid_segment_bits(segment_bits),
            count == hs / segment_bits,
            i <= items@.len(),
            segments@.len() == count,
            bitmap@.len() == hs / 8,
            forall|t: int| 0 <= t < count ==> sorted(#[trigger] segments@[t]@),
            forall|t: int, v: i32|
                0 <= t < count ==> (#[trigger] segments@[t]@.contains(v) <==> (items@.take(
                    i as int,
                ).contains(v) && seg_of::<H>(v, hs, segment_bits) == t)),
            forall|h: int|
                0 <= h < hs ==> (byte_bit(#[trigger] bitmap@[h / 8], h % 8) <==> exists|k: int|
                    0 <= k < i && #[trigger] mask_hash(H::spec_hash(items@[k]), hs) == h),
        decreases items@.len() - i,
    {
        let item = items[i];
        let h = masked_hash::<H>(item, hs);
        let seg = (h as usize) / segment_bits;
        proof {
            lemma_seg_range::<H>(item, hs, segment_bits);
        }
        let ghost before = segments@[seg as int]@;
        proof {
            assert forall|k: int| 0 <= k < before.len() implies before[k] < item by {
                assert(before.contains(before[k]));
                let cur = items@.take(i as int);
                assert(segments@[seg as int]@.contains(before[k]));
                assert(cur.contains(before[k]));
                let m = choose|m: int| 0 <= m < i && cur[m] == before[k];
                assert(cur[m] == items@[m]);
                assert(items@[m] < items@[i as int]);
            }
        }
        let ghost old_segments = segments@;
        segments[seg].push(item);
        let byte = (h as usize) / 8;
        let bitpos: u8 = (h % 8) as u8;
        let ghost old_bitmap = bitmap@;
        let updated: u8 = bitmap[byte] | (1u8 << bitpos);
        bitmap.set(byte, updated);
        i = i + 1;
        proof {
            assert(items@.take(i as int) =~= items@.take(i - 1).push(item));
            lemma_segments_step::<H>(old_segments, segments@, items@.take(i - 1), item, seg as int, hs, segment_bits);
            lemma_bitmap_step::<H>(old_bitmap, bitmap@, items@, (i - 1) as int, h as int, hs);
        }
    }
    proof {
        assert(items@.take(i as int) =~= items@);
    }
    (segments, bitmap)
}

proof fn lemma_nodup_sub_len(s: Seq<i32>, t: Seq<i32>)
    requires
        s.no_duplicates(),
        forall|k: int| 0 <= k < s.len() ==> t.contains(#[trigger] s[k]),
    ensures
        s.len() <= t.len(),
{
    s.unique_seq_to_set();
    t.lemma_cardinality_of_set();
    assert(s.to_set().subset_of(t.to_set())) by {
        assert forall|v: i32| s.to_set().contains(v) implies t.to_set().contains(v) by {
            let k = choose|k: int| 0 <= k < s.len() && s[k] == v;
            assert(t.contains(s[k]));
        }
    }
    vstd::set_lib::lemma_len_subset(s.to_set(), t.to_set());
}

proof fn lemma_seg_range<H: IntegerHash>(v: i32, hs: usize, sb: usize)
    requires
        MIN_HASH_SIZE <= hs <= MAX_HASH_SIZE,
        hs % 512 == 0,
        valid_segment_bits(sb),
    ensures
        0 <= mask_hash(H::spec_hash(v), hs) < hs,
        0 <= seg_of::<H>(v, hs, sb) < hs / sb,
{
    let h = H::spec_hash(v);
    lemma_mask_range(h, ((hs as i32) - 1i32) as i32);
    let b = mask_hash(h, hs);
    lemma_multiple_of_seg(hs, sb);
    vstd::arithmetic::div_mod::lemma_div_by_multiple_is_strongly_ordered(
        b,
        hs as int,
        (hs as int) / (sb as int),
        sb as int,
    );
}

proof fn lemma_multiple_of_seg(hs: usize, sb: usize)
    requires
        MIN_HASH_SIZE <= hs,
        hs % 512 == 0,
        valid_segment_bits(sb),
    ensures
        hs as int == ((hs as int) / (sb as int)) * (sb as int),
        (hs as int) / (sb as int) >= 8,
{
    let m = (hs as int) / 512;
    assert(hs == 512 * m);
    assert(m >= 1);
    if sb == 8 {
        assert(hs == (m * 64) * 8);
        assert((hs as int) / 8 == m * 64);
    } else if sb == 16 {
        assert(hs == (m * 32) * 16);
        assert((hs as int) / 16 == m * 32);
    } else if sb == 32 {
        assert(hs == (m * 16) * 32);
        assert((hs as int) / 32 == m * 16);
    } else {
        assert(hs == (m * 8) * 64);
        assert((hs as int) / 64 == m * 8);
    }
}

proof fn lemma_lanes(bits: usize, sb: usize, lanes: usize)
    requires
        bits == 128 || bits == 256 || bits == 512,
        valid_segment_bits(sb),
        lanes == bits / sb,
    ensures
        1 <= lanes <= 64,
        sb * lanes <= 512,
        sb * lanes == bits,
{
    assert(1 <= lanes <= 64 && sb * lanes <= 512 && sb * lanes == bits) by (nonlinear_arith)
        requires
            bits == 128 || bits == 256 || bits == 512,
            sb == 8 || sb == 16 || sb == 32 || sb == 64,
            lanes == bits / sb,
    ;
}

/// The segments of an index fill whole vectors of presence bits.
proof fn lemma_lanes_divide(hs: usize, sb: usize, bits: usize, lanes: usize)
    requires
        MIN_HASH_SIZE <= hs,
        hs % 512 == 0,
        valid_segment_bits(sb),
        bits == 128 || bits == 256 || bits == 512,
        lanes == bits / sb,
    ensures
        ((hs as int) / (sb as int)) % (lanes as int) == 0,
{
    lemma_lanes(bits, sb, lanes);
    lemma_multiple_of_seg(hs, sb);
    let m = (hs as int) / 512;
    assert(hs == 512 * m);
    let k: int = if bits == 128 {
        4 * m
    } else if bits == 256 {
        2 * m
    } else {
        m
    };
    assert(hs as int == (bits as int) * k);
    let ca = (hs as int) / (sb as int);
    assert(ca == (lanes as int) * k) by (nonlinear_arith)
        requires
            hs as int == ca * (sb as int),
            hs as int == (bits as int) * k,
            (sb as int) * (lanes as int) == bits as int,
            sb > 0,
    ;
    vstd::arithmetic::div_mod::lemma_mod_multiples_basic(k, lanes as int);
    assert(k * (lanes as int) == (lanes as int) * k) by (nonlinear_arith);
}

/// Second pass of the build: the segment lists laid end to end, with each
/// one's start and size.
fn flatten<H: IntegerHash>(segments: &Vec<Vec<i32>>, Ghost(items): Ghost<Seq<i32>>, hs: usize, sb: usize) -> (r: (
    Vec<i32>,
    Vec<i32>,
    Vec<i32>,
))
    requires
        sorted(items),
        items.len() <= i32::MAX,
        MIN_HASH_SIZE <= hs <= MAX_HASH_SIZE,
        hs % 512 == 0,
        valid_segment_bits(sb),
        segments@.len() == hs / sb,
        segments@.len() > 0,
        forall|s: int| 0 <= s < segments@.len() ==> sorted(#[trigger] segments@[s]@),
        forall|s: int, v: i32|
            0 <= s < segments@.len() ==> (#[trigger] segments@[s]@.contains(v) <==> (items.contains(v)
                && seg_of::<H>(v, hs, sb) == s)),
    ensures
        r.0@.len() == segments@.len(),
        r.1@.len() == segments@.len(),
        r.2@.no_duplicates(),
        r.2@.len() <= items.len(),
        forall|v: i32| #[trigger] r.2@.contains(v) <==> items.contains(v),
        r.0@[0] == 0,
        forall|t: int| 0 <= t < segments@.len() ==> 0 <= #[trigger] r.0@[t],
        forall|t: int|
            0 <= t < segments@.len() ==> 0 <= #[trigger] r.1@[t] && r.0@[t] + r.1@[t] <= r.2@.len()
                && r.2@.subrange(r.0@[t] as int, r.0@[t] + r.1@[t]) == segments@[t]@,
        forall|t: int| 0 <= t < segments@.len() - 1 ==> #[trigger] r.0@[t + 1] == r.0@[t] + r.1@[t],
        r.0@[segments@.len() - 1] + r.1@[segments@.len() - 1] == r.2@.len(),
        forall|p: int|
            0 <= p < r.2@.len() ==> 0 <= #[trigger] seg_of::<H>(r.2@[p], hs, sb) < segments@.len()
                && r.0@[seg_of::<H>(r.2@[p], hs, sb)] <= p < r.0@[seg_of::<H>(r.2@[p], hs, sb)]
                + r.1@[seg_of::<H>(r.2@[p], hs, sb)],
{
    let count = segments.len();
    let mut offsets: Vec<i32> = Vec::new();
    let mut sizes: Vec<i32> = Vec::new();
    let mut reordered: Vec<i32> = Vec::new();
    let mut s: usize = 0;
    proof {
        assert forall|v: i32| #[trigger] reordered@.contains(v) <==> (items.contains(v) && seg_of::<H>(
            v,
            hs,
            sb,
        ) < s) by {
            lemma_seg_range::<H>(v, hs, sb);
        }
    }
    while s < count
        invariant
            sorted(items),
            items.len() <= i32::MAX,
            MIN_HASH_SIZE <= hs <= MAX_HASH_SIZE,
            hs % 512 == 0,
            valid_segment_bits(sb),
            count == segments@.len(),
            count == hs / sb,
            forall|t: int| 0 <= t < segments@.len() ==> sorted(#[trigger] segments@[t]@),
            forall|t: int, v: i32|
                0 <= t < segments@.len() ==> (#[trigger] segments@[t]@.contains(v) <==> (
                items.contains(v) && seg_of::<H>(v, hs, sb) == t)),
            s <= count,
            offsets@.len() == s,
            sizes@.len() == s,
            s == 0 ==> reordered@.len() == 0,
            reordered@.no_duplicates(),
            reordered@.len() <= items.len(),
            forall|v: i32| #[trigger] reordered@.contains(v) <==> (items.contains(v) && seg_of::<H>(
                v,
                hs,
                sb,
            ) < s),
            s > 0 ==> offsets@[0] == 0,
            forall|t: int| 0 <= t < s ==> 0 <= #[trigger] offsets@[t],
            forall|t: int|
                0 <= t < s ==> 0 <= #[trigger] sizes@[t] && offsets@[t] + sizes@[t]
                    <= reordered@.len() && reordered@.subrange(
                    offsets@[t] as int,
                    offsets@[t] + sizes@[t],
                ) == segments@[t]@,
            forall|t: int| 0 <= t < s - 1 ==> #[trigger] offsets@[t + 1] == offsets@[t] + sizes@[t],
            s > 0 ==> offsets@[s - 1] + sizes@[s - 1] == reordered@.len(),
            forall|p: int|
                0 <= p < reordered@.len() ==> 0 <= #[trigger] seg_of::<H>(reordered@[p], hs, sb) < s
                    && offsets@[seg_of::<H>(reordered@[p], hs, sb)] <= p < offsets@[seg_of::<H>(
                    reordered@[p],
                    hs,
                    sb,
                )] + sizes@[seg_of::<H>(reordered@[p], hs, sb)],
        decreases count - s,
    {
        let seg = &segments[s];
        let ghost old_r = reordered@;
        let ghost old_offsets = offsets@;
        let ghost old_sizes = sizes@;
        let start = reordered.len() as i32;
        offsets.push(start);
        reordered.extend_from_slice(seg.as_slice());
        proof {
            let sv = seg@;
            assert(reordered@ == old_r + sv);
            assert forall|v: i32| #[trigger] reordered@.contains(v) <==> (items.contains(v)
                && seg_of::<H>(v, hs, sb) < s + 1) by {
                if reordered@.contains(v) {
                    let k = choose|k: int| 0 <= k < reordered@.len() && reordered@[k] == v;
                    if k < old_r.len() {
                        assert(old_r[k] == v);
                        assert(old_r.contains(v));
                    } else {
                        assert(sv[k - old_r.len()] == v);
                        assert(sv.contains(v));
                        assert(segments@[s as int]@.contains(v));
                    }
                }
                if items.contains(v) && seg_of::<H>(v, hs, sb) < s + 1 {
                    lemma_seg_range::<H>(v, hs, sb);
                    if seg_of::<H>(v, hs, sb) < s {
                        assert(old_r.contains(v));
                        let k = choose|k: int| 0 <= k < old_r.len() && old_r[k] == v;
                        assert(reordered@[k] == v);
                    } else {
                        assert(sv.contains(v));
                        let k = choose|k: int| 0 <= k < sv.len() && sv[k] == v;
                        assert(reordered@[old_r.len() + k] == v);
                    }
                }
            }
            assert(reordered@.no_duplicates()) by {
                assert forall|i: int, j: int|
                    0 <= i < reordered@.len() && 0 <= j < reordered@.len() && i != j implies reordered@[i]
                    != reordered@[j] by {
                    if i < old_r.len() && j < old_r.len() {
                        assert(old_r[i] != old_r[j]);
                    } else if i >= old_r.len() && j >= old_r.len() {
                        let a = i - old_r.len();
                        let b = j - old_r.len();
                        if a < b {
                            assert(sv[a] < sv[b]);
                        } else {
                            assert(sv[b] < sv[a]);
                        }
                    } else {
                        let (p, q) = if i < old_r.len() { (i, j - old_r.len()) } else { (j, i - old_r.len()) };
                        assert(old_r.contains(old_r[p]));
                        assert(sv.contains(sv[q]));
                    }
                }
            }
            assert forall|k: int| 0 <= k < reordered@.len() implies items.contains(#[trigger] reordered@[k]) by {
                assert(reordered@.contains(reordered@[k]));
            }
            lemma_nodup_sub_len(reordered@, items);
        }
        let size = seg.len() as i32;
        sizes.push(size);
        s = s + 1;
        proof {
            assert(offsets@[0] == 0);
            assert(forall|t: int| 0 <= t < s ==> 0 <= #[trigger] offsets@[t]);
            assert forall|p: int| 0 <= p < reordered@.len() implies 0 <= #[trigger] seg_of::<H>(
                reordered@[p],
                hs,
                sb,
            ) < s && offsets@[seg_of::<H>(reordered@[p], hs, sb)] <= p < offsets@[seg_of::<H>(
                reordered@[p],
                hs,
                sb,
            )] + sizes@[seg_of::<H>(reordered@[p], hs, sb)] by {
                if p < old_r.len() {
                    assert(reordered@[p] == old_r[p]);
                    let t = seg_of::<H>(old_r[p], hs, sb);
                    assert(offsets@[t] == old_offsets[t]);
                    assert(sizes@[t] == old_sizes[t]);
                } else {
                    let sv = seg@;
                    assert(reordered@[p] == sv[p - old_r.len()]);
                    assert(sv.contains(sv[p - old_r.len()]));
                    assert(segments@[s - 1]@.contains(reordered@[p]));
                }
            }
            assert forall|t: int| 0 <= t < s implies 0 <= #[trigger] sizes@[t] && offsets@[t] + sizes@[t]
                <= reordered@.len() && reordered@.subrange(offsets@[t] as int, offsets@[t] + sizes@[t])
                == segments@[t]@ by {
                if t < s - 1 {
                    assert(offsets@[t] == old_offsets[t]);
                    assert(sizes@[t] == old_sizes[t]);
                    assert(0 <= old_sizes[t] && old_offsets[t] + old_sizes[t] <= old_r.len());
                    assert(reordered@.subrange(offsets@[t] as int, offsets@[t] + sizes@[t])
                        =~= old_r.subrange(offsets@[t] as int, offsets@[t] + sizes@[t]));
                } else {
                    assert(reordered@.subrange(offsets@[t] as int, offsets@[t] + sizes@[t]) =~= seg@);
                }
            }
        }
    }
    proof {
        assert forall|v: i32| #[trigger] reordered@.contains(v) <==> items.contains(v) by {
            lemma_seg_range::<H>(v, hs, sb);
        }
    }
    (offsets, sizes, reordered)
}

/// Relies on `slice::sort`: the elements end up in ascending order, and the
/// same elements remain.
#[verifier::external_body]
fn sort_ascending(v: &mut Vec<i32>)
    ensures
        final(v)@.to_multiset() == old(v)@.to_multiset(),
        forall|i: int, j: int| 0 <= i <= j < final(v)@.len() ==> final(v)@[i] <= final(v)@[j],
{
    v.sort();
}

impl<H: IntegerHash> Fesia<H> {
    /// Builds the index of a sorted set. The number of buckets is the least
    /// power of two, at least `MIN_HASH_SIZE`, not below
    /// `ceil(len * numer / denom)`; a segment covers `segment_bits` buckets,
    /// and a vector of `simd` holds the presence bits of `simd.bits() /
    /// segment_bits` segments.
    pub fn from_sorted(sorted_set: &[i32], hash_scale: HashScale, segment_bits: usize, simd: SimdType) -> (r: Self)
        requires
            sorted(sorted_set@),
            sorted_set@.len() <= i32::MAX,
            hash_scale.denom > 0,
            wanted_buckets(sorted_set@.len() as int, hash_scale) <= MAX_HASH_SIZE,
            valid_segment_bits(segment_bits),
        ensures
            r.wf(),
            forall|v: i32| #[trigger] r.elements().contains(v) <==> sorted_set@.contains(v),
            r.buckets() >= wanted_buckets(sorted_set@.len() as int, hash_scale),
            r.buckets() == MIN_HASH_SIZE || r.buckets() / 2 < wanted_buckets(
                sorted_set@.len() as int,
                hash_scale,
            ),
            r.seg_bits() == segment_bits,
            r.lane_count() == simd.spec_bits() / segment_bits,
            MIN_HASH_SIZE <= r.buckets() <= MAX_HASH_SIZE,
            is_pow2(r.buckets() as int),
            r.spec_segment_count() % (r.lane_count() as int) == 0,
            r.elements().len() == sorted_set@.len(),
            r.start(0) == 0,
            forall|s: int| 0 <= s < r.spec_segment_count() ==> 0 <= #[trigger] r.size(s),
            forall|s: int|
                0 <= s < r.spec_segment_count() - 1 ==> #[trigger] r.start(s + 1) == r.start(s)
                    + r.size(s),
            r.start(r.spec_segment_count() - 1) + r.size(r.spec_segment_count() - 1)
                == r.elements().len(),
            forall|s: int| 0 <= s < r.spec_segment_count() ==> sorted(#[trigger] r.segment(s)),
            forall|s: int, v: i32|
                0 <= s < r.spec_segment_count() ==> (#[trigger] r.segment(s).contains(v) <==> (
                sorted_set@.contains(v) && r.segment_of(v) == s)),
            forall|h: int|
                0 <= h < r.buckets() ==> (#[trigger] r.bit(h) <==> exists|x: i32|
                    sorted_set@.contains(x) && #[trigger] r.bucket(x) == h),
    {
        let hs = bucket_count(sorted_set.len(), hash_scale);
        proof {
            lemma_multiple_of_seg(hs, segment_bits);
        }
        let (segments, bitmap) = bucketize::<H>(sorted_set, hs, segment_bits);
        let (offsets, sizes, reordered_set) = flatten::<H>(&segments, Ghost(sorted_set@), hs, segment_bits);
        let bits = simd.bits();
        let lanes = bits / segment_bits;
        proof {
            lemma_lanes_divide(hs, segment_bits, bits, lanes);
            lemma_lanes(bits, segment_bits, lanes);
            assert(1 <= lanes <= 64);
            assert(segment_bits * lanes <= 512);
        }
        let r = Fesia {
            bitmap,
            sizes,
            offsets,
            reordered_set,
            hash_size: hs,
            segment_bits,
            lanes,
            hash_t: PhantomData,
        };
        proof {
            reveal(Fesia::wf);
            let count = r.spec_segment_count();
            assert(count == hs / segment_bits);
            assert(r.bitmap@.len() == r.hash_size / 8);
            assert(r.sizes@.len() == count);
            assert(r.offsets@.len() == count);
            assert(r.start(0) == 0);
            assert(forall|s: int| 0 <= s < count ==> 0 <= #[trigger] r.start(s));
            assert(forall|s: int| 0 <= s < count ==> 0 <= #[trigger] r.size(s));
            assert(forall|s: int|
                0 <= s < count ==> #[trigger] r.start(s) + r.size(s) <= r.reordered_set@.len());
            assert(forall|s: int|
                0 <= s < count - 1 ==> #[trigger] r.start(s + 1) == r.start(s) + r.size(s));
            assert(r.start(count - 1) + r.size(count - 1) == r.reordered_set@.len());
            assert forall|p: int| 0 <= p < r.reordered_set@.len() implies 0 <= #[trigger] r.segment_of(
                r.reordered_set@[p],
            ) < count && r.start(r.segment_of(r.reordered_set@[p])) <= p < r.start(
                r.segment_of(r.reordered_set@[p]),
            ) + r.size(r.segment_of(r.reordered_set@[p])) by {
                assert(r.segment_of(r.reordered_set@[p]) == seg_of::<H>(r.reordered_set@[p], hs, segment_bits));
            }
            assert forall|s: int| 0 <= s < count implies sorted(#[trigger] r.segment(s)) by {
                assert(r.segment(s) == segments@[s]@);
            }
            assert forall|s: int, x: i32|
                0 <= s < count && #[trigger] r.segment(s).contains(x) implies r.segment_of(x) == s by {
                assert(r.segment(s) == segments@[s]@);
            }
            assert forall|s: int, v: i32| 0 <= s < count implies (#[trigger] r.segment(s).contains(v)
                <==> (sorted_set@.contains(v) && r.segment_of(v) == s)) by {
                assert(r.segment(s) == segments@[s]@);
            }
            assert(sorted_set@.no_duplicates()) by {
                assert forall|i: int, j: int|
                    0 <= i < sorted_set@.len() && 0 <= j < sorted_set@.len() && i != j implies sorted_set@[i]
                    != sorted_set@[j] by {
                    if i < j {
                        assert(sorted_set@[i] < sorted_set@[j]);
                    } else {
                        assert(sorted_set@[j] < sorted_set@[i]);
                    }
                }
            }
            r.reordered_set@.unique_seq_to_set();
            sorted_set@.unique_seq_to_set();
            assert(r.reordered_set@.to_set() =~= sorted_set@.to_set());
            assert forall|h: int| 0 <= h < r.hash_size implies (#[trigger] r.bit(h) <==> exists|x: i32|
                r.elements().contains(x) && #[trigger] r.bucket(x) == h) by {
                if r.bit(h) {
                    let k = choose|k: int|
                        0 <= k < sorted_set@.len() && #[trigger] mask_hash(H::spec_hash(sorted_set@[k]), hs) == h;
                    assert(sorted_set@.contains(sorted_set@[k]));
                    assert(r.bucket(sorted_set@[k]) == h);
                }
                if exists|x: i32| r.elements().contains(x) && #[trigger] r.bucket(x) == h {
                    let x = choose|x: i32| r.elements().contains(x) && #[trigger] r.bucket(x) == h;
                    assert(sorted_set@.contains(x));
                    let k = choose|k: int| 0 <= k < sorted_set@.len() && sorted_set@[k] == x;
                    assert(mask_hash(H::spec_hash(sorted_set@[k]), hs) == h);
                }
            }
        }
        r
    }

    /// Number of segments.
    pub fn segment_count(&self) -> (r: usize)
        requires
            self.wf(),
        ensures
            r == self.spec_segment_count(),
    {
        proof {
            reveal(Fesia::wf);
        }
        self.offsets.len()
    }

    /// Number of hash buckets.
    pub fn hash_size(&self) -> (r: usize)
        ensures
            r == self.buckets(),
    {
        self.hash_size
    }

    /// Whether the presence bit of bucket `h` is set.
    pub fn bucket_is_set(&self, h: usize) -> (r: bool)
        requires
            self.wf(),
            h < self.buckets(),
        ensures
            r == self.bit(h as int),
    {
        assert(self.bitmap@.len() == self.hash_size / 8 && self.hash_size % 512 == 0) by {
            reveal(Fesia::wf);
        }
        assert(h / 8 < self.hash_size / 8);
        (self.bitmap[h / 8] >> ((h % 8) as u8)) & 1u8 == 1u8
    }

    /// The elements in ascending order.
    pub fn to_sorted_set(&self) -> (r: Vec<i32>)
        requires
            self.wf(),
        ensures
            sorted(r@),
            forall|v: i32| #[trigger] r@.contains(v) <==> self.elements().contains(v),
    {
        let mut result: Vec<i32> = Vec::new();
        let mut i: usize = 0;
        while i < self.reordered_set.len()
            invariant
                i <= self.reordered_set@.len(),
                result@ == self.reordered_set@.take(i as int),
            decreases self.reordered_set@.len() - i,
        {
            result.push(self.reordered_set[i]);
            i = i + 1;
            proof {
                assert(result@ =~= self.reordered_set@.take(i as int));
            }
        }
        proof {
            assert(result@ =~= self.reordered_set@);
        }
        let ghost before = result@;
        sort_ascending(&mut result);
        proof {
            reveal(Fesia::wf);
            broadcast use vstd::seq_lib::group_to_multiset_ensures;
            before.lemma_multiset_has_no_duplicates();
            result@.lemma_multiset_has_no_duplicates_conv();
            assert forall|i: int, j: int| 0 <= i < j < result@.len() implies result@[i] < result@[j] by {
                assert(result@[i] <= result@[j]);
                assert(result@[i] != result@[j]);
            }
            assert forall|v: i32| #[trigger] result@.contains(v) <==> self.elements().contains(v) by {
                assert(result@.to_multiset().count(v) == before.to_multiset().count(v));
            }
        }
        result
    }
}

proof fn lemma_pow2_bits(n: i32)
    requires
        1 <= n <= 0x4000_0000,
        is_pow2(n as int),
    ensures
        n & (n - 1) as i32 == 0,
    decreases n,
{
    if n == 1 {
        assert(1i32 & 0i32 == 0) by (bit_vector);
    } else {
        let m = (n / 2) as i32;
        lemma_pow2_bits(m);
        assert(n & (n - 1) as i32 == 0) by (bit_vector)
            requires
                1 <= m <= 0x2000_0000,
                m & (m - 1) as i32 == 0,
                n == 2 * m,
        ;
    }
}

proof fn lemma_pow2_divides(x: int, y: int)
    requires
        is_pow2(x),
        is_pow2(y),
        x <= y,
    ensures
        x >= 1,
        y % x == 0,
    decreases y,
{
    if x == y {
        assert(y % x == 0) by (nonlinear_arith)
            requires
                x == y,
                x >= 1,
        ;
    } else if x == 1 {
        assert(y % 1 == 0) by (nonlinear_arith);
    } else {
        lemma_pow2_divides(x / 2, y / 2);
        let k = (y / 2) / (x / 2);
        vstd::arithmetic::div_mod::lemma_fundamental_div_mod(y / 2, x / 2);
        assert(y == k * x) by (nonlinear_arith)
            requires
                y / 2 == (x / 2) * k + (y / 2) % (x / 2),
                (y / 2) % (x / 2) == 0,
                y % 2 == 0,
                x % 2 == 0,
        ;
        vstd::arithmetic::div_mod::lemma_mod_multiples_basic(k, x);
    }
}

proof fn lemma_mask_nest(h: i32, ma: i32, mb: i32)
    requires
        0 <= ma <= mb,
        (ma + 1) as i32 & ma == 0,
        (mb + 1) as i32 & mb == 0,
        mb < 0x4000_0000,
    ensures
        (h & mb) & ma == h & ma,
        0 <= h & mb <= mb,
        (h & mb) as u32 & ma as u32 == (h & ma) as u32,
        (h & mb) as u32 as int == (h & mb) as int,
        (h & ma) as u32 as int == (h & ma) as int,
{
    assert((h & mb) & ma == h & ma) by (bit_vector)
        requires
            0 <= ma <= mb,
            (ma + 1) as i32 & ma == 0,
            (mb + 1) as i32 & mb == 0,
    ;
    lemma_mask_range(h, mb);
    lemma_mask_range(h, ma);
    assert((h & mb) as u32 & ma as u32 == (h & ma) as u32) by (bit_vector)
        requires
            0 <= ma <= mb,
            (h & mb) & ma == h & ma,
    ;
}

pub open spec fn log2(n: int) -> nat
    decreases n,
{
    if n <= 1 {
        0
    } else {
        1 + log2(n / 2)
    }
}

proof fn lemma_log2(n: int, b: nat)
    requires
        is_pow2(n),
        n < vstd::arithmetic::power2::pow2(b),
    ensures
        vstd::arithmetic::power2::pow2(log2(n)) == n,
        log2(n) < b,
    decreases n,
{
    vstd::arithmetic::power2::lemma_pow2_pos(b);
    vstd::arithmetic::power2::lemma2_to64();
    if b == 0 {
        assert(vstd::arithmetic::power2::pow2(0) == 1);
        assert(false);
    }
    if n <= 1 {
    } else {
        vstd::arithmetic::power2::lemma_pow2_unfold(b);
        lemma_log2(n / 2, (b - 1) as nat);
        vstd::arithmetic::power2::lemma_pow2_unfold(log2(n));
    }
}

proof fn lemma_mod_mask(v: u32, na: usize)
    requires
        MIN_HASH_SIZE <= na <= MAX_HASH_SIZE,
        is_pow2(na as int),
    ensures
        v % (na as u32) == v & ((na - 1) as u32),
{
    vstd::arithmetic::power2::lemma2_to64();
    lemma_log2(na as int, 32);
    let k = log2(na as int);
    vstd::bits::lemma_u32_low_bits_mask_is_mod(v, k);
}

/// Buckets and segments of one element in two indexes whose hash sizes
/// divide each other: the larger index's bucket reduces to the smaller's,
/// and its segment lies in block `bucket / small_hash_size` at the same
/// position as the smaller index's segment.
proof fn lemma_compatible<H: IntegerHash>(a: Fesia<H>, b: Fesia<H>, x: i32)
    requires
        a.wf(),
        b.wf(),
        a.seg_bits() == b.seg_bits(),
        a.buckets() <= b.buckets(),
    ensures
        b.bucket(x) % (a.buckets() as int) == a.bucket(x),
        0 <= a.segment_of(x) < a.spec_segment_count(),
        0 <= b.segment_of(x) < b.spec_segment_count(),
        b.segment_of(x) == (b.bucket(x) / (a.buckets() as int)) * a.spec_segment_count() + a.segment_of(x),
        b.segment_of(x) % a.spec_segment_count() == a.segment_of(x),
        b.spec_segment_count() % a.spec_segment_count() == 0,
{
    reveal(Fesia::wf);
    let na = a.buckets();
    let nb = b.buckets();
    let sb = a.seg_bits();
    let h = H::spec_hash(x);
    lemma_seg_range::<H>(x, na, sb);
    lemma_seg_range::<H>(x, nb, sb);
    lemma_multiple_of_seg(na, sb);
    lemma_multiple_of_seg(nb, sb);
    lemma_pow2_bits(na as i32);
    lemma_pow2_bits(nb as i32);
    let ma = (na as i32 - 1) as i32;
    let mb = (nb as i32 - 1) as i32;
    lemma_mask_nest(h, ma, mb);
    assert((ma + 1) as u32 & ma as u32 == 0) by (bit_vector)
        requires
            (ma + 1) as i32 & ma == 0,
            0 <= ma < 0x4000_0000,
    ;
    lemma_mod_mask((h & mb) as u32, na);
    assert(b.bucket(x) % (na as int) == a.bucket(x));
    lemma_pow2_divides(na as int, nb as int);
    let ca = a.spec_segment_count();
    let cb = b.spec_segment_count();
    let vb = b.bucket(x);
    let va = a.bucket(x);
    let q = vb / (na as int);
    vstd::arithmetic::div_mod::lemma_fundamental_div_mod(vb, na as int);
    assert(vb == q * (na as int) + va);
    assert(na as int == ca * (sb as int));
    assert(vb == (q * ca) * (sb as int) + va) by (nonlinear_arith)
        requires
            vb == q * (na as int) + va,
            na as int == ca * (sb as int),
    ;
    vstd::arithmetic::div_mod::lemma_hoist_over_denominator(va, q * ca, sb as nat);
    assert(b.segment_of(x) == q * ca + a.segment_of(x));
    assert(0 <= a.segment_of(x) < ca);
    let sa = a.segment_of(x);
    vstd::arithmetic::div_mod::lemma_mod_multiples_vanish(q, sa, ca);
    vstd::arithmetic::div_mod::lemma_small_mod(sa as nat, ca as nat);
    assert((ca * q + sa) % ca == sa % ca);
    assert(ca * q + sa == q * ca + sa) by (nonlinear_arith);
    assert(b.segment_of(x) % ca == sa);
    let k = (nb as int) / (na as int);
    vstd::arithmetic::div_mod::lemma_fundamental_div_mod(nb as int, na as int);
    assert(nb as int == k * (na as int));
    assert(cb == k * ca) by (nonlinear_arith)
        requires
            nb as int == k * (na as int),
            na as int == ca * (sb as int),
            nb as int == cb * (sb as int),
            sb > 0,
    ;
    vstd::arithmetic::div_mod::lemma_mod_multiples_basic(k, ca);
}

impl<H: IntegerHash> Fesia<H> {
    /// Two indexes that can be intersected: same segment width, and the hash
    /// size of `self` (a power of two, as is the other's) not above the other's.
    pub open spec fn compatible(&self, other: &Self) -> bool {
        &&& self.wf()
        &&& other.wf()
        &&& self.seg_bits() == other.seg_bits()
        &&& self.buckets() <= other.buckets()
    }

    /// Whether segment `seg` of `self` holds `item`: a linear scan.
    fn segment_contains(&self, seg: usize, item: i32) -> (r: bool)
        requires
            self.wf(),
            seg < self.spec_segment_count(),
        ensures
            r == self.segment(seg as int).contains(item),
    {
        proof {
            reveal(Fesia::wf);
        }
        assert(0 <= self.start(seg as int) && 0 <= self.size(seg as int));
        assert(self.start(seg as int) + self.size(seg as int) <= self.reordered_set@.len());
        let offset = self.offsets[seg] as usize;
        let size = self.sizes[seg] as usize;
        let total = self.reordered_set.len();
        let end = offset + size;
        let ghost sg = self.segment(seg as int);
        let mut k: usize = offset;
        while k < end
            invariant
                offset <= k <= end <= self.reordered_set@.len(),
                end == offset + size,
                sg == self.segment(seg as int),
                sg == self.reordered_set@.subrange(offset as int, offset + size),
                forall|q: int| offset <= q < k ==> self.reordered_set@[q] != item,
            decreases end - k,
        {
            if self.reordered_set[k] == item {
                assert(sg[k - offset] == item);
                assert(sg.contains(item));
                return true;
            }
            k = k + 1;
        }
        proof {
            if sg.contains(item) {
                let q = choose|q: int| 0 <= q < sg.len() && sg[q] == item;
                assert(self.reordered_set@[offset + q] == item);
            }
        }
        false
    }

    /// Skewed-mode intersection: for every block of `other`, each element of
    /// `self` is looked for in the one segment of `other` where it would be.
    /// Emits every common element once, in index order rather than value order.
    pub fn hash_intersect<V: Visitor>(&self, other: &Self, visitor: &mut V)
        requires
            self.compatible(other),
            old(visitor).inv(),
            self.elements().len() <= old(visitor).room(),
        ensures
            final(visitor).inv(),
            final(visitor).seen().len() >= old(visitor).seen().len(),
            final(visitor).seen().take(old(visitor).seen().len() as int) == old(visitor).seen(),
            final(visitor).seen().skip(old(visitor).seen().len() as int).no_duplicates(),
            forall|v: i32|
                #[trigger] final(visitor).seen().skip(old(visitor).seen().len() as int).contains(v)
                    <==> (self.elements().contains(v) && other.elements().contains(v)),
            final(visitor).room() == old(visitor).room() - (final(visitor).seen().len()
                - old(visitor).seen().len()),
    {
        let ca = self.segment_count();
        let cb = other.segment_count();
        let hs = self.hash_size;
        let sb = self.segment_bits;
        proof {
            reveal(Fesia::wf);
            lemma_multiple_of_seg(self.hash_size, sb);
            lemma_multiple_of_seg(other.hash_size, sb);
            let x = 0i32;
            lemma_compatible(*self, *other, x);
        }
        let blocks = cb / ca;
        proof {
            vstd::arithmetic::div_mod::lemma_fundamental_div_mod(cb as int, ca as int);
            assert(cb == blocks * ca) by (nonlinear_arith)
                requires
                    cb == ca * (cb / ca) + cb % ca,
                    cb % ca == 0,
                    blocks == cb / ca,
            ;
        }
        let ghost s0 = visitor.seen();
        let ghost r0 = visitor.room();
        let ghost a = self.elements();
        let ghost mut e: Seq<i32> = Seq::empty();
        proof {
            assert forall|v: i32| #[trigger] e.contains(v) <==> (a.contains(v) && other.elements().contains(v)
                && other.bucket(v) / (hs as int) < 0) by {
                lemma_mask_range(H::spec_hash(v), ((other.buckets() as i32) - 1i32) as i32);
            }
        }
        let mut block: usize = 0;
        while block < blocks
            invariant
                self.compatible(other),
                ca == self.spec_segment_count(),
                cb == other.spec_segment_count(),
                hs == self.buckets(),
                sb == self.seg_bits(),
                cb == blocks * ca,
                ca >= 8,
                MIN_HASH_SIZE <= hs <= MAX_HASH_SIZE,
                a == self.elements(),
                block <= blocks,
                visitor.inv(),
                visitor.seen() == s0 + e,
                visitor.room() == r0 - e.len(),
                a.len() <= r0,
                e.no_duplicates(),
                forall|v: i32| #[trigger] e.contains(v) <==> (a.contains(v) && other.elements().contains(v)
                    && other.bucket(v) / (hs as int) < block),
            decreases blocks - block,
        {
            assert(block * ca + ca <= cb) by (nonlinear_arith)
                requires
                    block < blocks,
                    cb == blocks * ca,
            ;
            let base = block * ca;
            let mut i: usize = 0;
            while i < self.reordered_set.len()
                invariant
                    self.compatible(other),
                    ca == self.spec_segment_count(),
                    cb == other.spec_segment_count(),
                    hs == self.buckets(),
                    sb == self.seg_bits(),
                    cb == blocks * ca,
                    a == self.elements(),
                    block < blocks,
                    base == block * ca,
                    base + ca <= cb,
                    MIN_HASH_SIZE <= hs <= MAX_HASH_SIZE,
                    i <= a.len(),
                    visitor.inv(),
                    visitor.seen() == s0 + e,
                    visitor.room() == r0 - e.len(),
                    a.len() <= r0,
                    e.no_duplicates(),
                    forall|v: i32| #[trigger] e.contains(v) <==> (a.contains(v) && other.elements().contains(v)
                        && (other.bucket(v) / (hs as int) < block || (other.bucket(v) / (hs as int)
                        == block && a.take(i as int).contains(v)))),
                decreases a.len() - i,
            {
                let item = self.reordered_set[i];
                let hash = masked_hash::<H>(item, hs);
                proof {
                    lemma_compatible(*self, *other, item);
                    reveal(Fesia::wf);
                }
                let seg = base + (hash as usize) / sb;
                let found = other.segment_contains(seg, item);
                proof {
                    let q = other.bucket(item) / (hs as int);
                    let sa = self.segment_of(item);
                    assert(sa == (hash as int) / (sb as int));
                    assert(a.contains(item)) by {
                        assert(a[i as int] == item);
                    }
                    if other.elements().contains(item) {
                        let p = choose|p: int| 0 <= p < other.elements().len() && other.elements()[p] == item;
                        assert(other.reordered_set@[p] == item);
                        let t = other.segment_of(item);
                        assert(other.segment(t)[p - other.start(t)] == item);
                        assert(other.segment(t).contains(item));
                        if found {
                            assert(other.segment_of(item) == seg);
                        }
                        assert(found <==> (t == seg));
                        assert((t == seg) <==> (q == block)) by (nonlinear_arith)
                            requires
                                t == q * ca + sa,
                                seg == block * ca + sa,
                                ca > 0,
                        ;
                    } else {
                        if found {
                            let sg = other.segment(seg as int);
                            let k = choose|k: int| 0 <= k < sg.len() && sg[k] == item;
                            assert(other.elements()[other.start(seg as int) + k] == item);
                        }
                    }
                    assert(found <==> (other.elements().contains(item) && other.bucket(item) / (hs as int)
                        == block));
                    assert(a.take(i + 1) =~= a.take(i as int).push(item));
                    assert(!a.take(i as int).contains(item)) by {
                        if a.take(i as int).contains(item) {
                            let at = a.take(i as int);
                            let k = choose|k: int| 0 <= k < i && at[k] == item;
                            assert(a[k] == a[i as int]);
                        }
                    }
                }
                let ghost e_before = e;
                if found {
                    proof {
                        assert(!e.contains(item));
                        assert forall|k: int| 0 <= k < e.push(item).len() implies a.contains(
                            #[trigger] e.push(item)[k],
                        ) by {
                            if k < e.len() {
                                assert(e.contains(e[k]));
                            }
                        }
                        assert(e.push(item).no_duplicates()) by {
                            assert forall|x: int, y: int|
                                0 <= x < e.len() + 1 && 0 <= y < e.len() + 1 && x != y implies e.push(
                                    item,
                                )[x] != e.push(item)[y] by {
                                if x < e.len() && y < e.len() {
                                } else if x < e.len() {
                                    assert(e.contains(e[x]));
                                } else {
                                    assert(e.contains(e[y]));
                                }
                            }
                        }
                        lemma_nodup_sub_len(e.push(item), a);
                    }
                    visitor.visit(item);
                    proof {
                        assert(s0 + e.push(item) =~= (s0 + e).push(item));
                        e = e.push(item);
                    }
                }
                i = i + 1;
                proof {
                    assert forall|v: i32| #[trigger] e.contains(v) <==> (a.contains(v) && other.elements().contains(v)
                        && (other.bucket(v) / (hs as int) < block || (other.bucket(v) / (hs as int)
                        == block && a.take(i as int).contains(v)))) by {
                        let at = a.take(i as int);
                        let ap = a.take(i - 1);
                        if found {
                            assert(e == e_before.push(item));
                            assert(e.contains(v) <==> (e_before.contains(v) || v == item)) by {
                                if e.contains(v) && v != item {
                                    let k = choose|k: int| 0 <= k < e.len() && e[k] == v;
                                    assert(e_before[k] == v);
                                }
                                if e_before.contains(v) {
                                    let k = choose|k: int| 0 <= k < e_before.len() && e_before[k] == v;
                                    assert(e[k] == v);
                                }
                                assert(e[e_before.len() as int] == item);
                            }
                        } else {
                            assert(e == e_before);
                        }
                        if at.contains(v) && v != item {
                            let k = choose|k: int| 0 <= k < i && at[k] == v;
                            assert(ap[k] == v);
                        }
                        if ap.contains(v) {
                            let k = choose|k: int| 0 <= k < i - 1 && ap[k] == v;
                            assert(at[k] == v);
                        }
                        assert(at[i - 1] == item);
                    }
                }
            }
            block = block + 1;
            proof {
                assert(a.take(a.len() as int) =~= a);
            }
        }
        proof {
            assert forall|v: i32| #[trigger] e.contains(v) <==> (a.contains(v) && other.elements().contains(v)) by {
                if a.contains(v) && other.elements().contains(v) {
                    lemma_compatible(*self, *other, v);
                    let q = other.bucket(v) / (hs as int);
                    assert(q < blocks) by (nonlinear_arith)
                        requires
                            other.segment_of(v) == q * ca + self.segment_of(v),
                            0 <= self.segment_of(v),
                            other.segment_of(v) < cb,
                            cb == blocks * ca,
                            ca > 0,
                    ;
                }
            }
            assert(visitor.seen().take(s0.len() as int) =~= s0);
            assert(visitor.seen().skip(s0.len() as int) =~= e);
        }
    }
}

proof fn lemma_and_zero(x: u8, y: u8, i: u8)
    requires
        x & y == 0,
        i < 8,
    ensures
        !((x >> i) & 1u8 == 1u8 && (y >> i) & 1u8 == 1u8),
{
    assert(!((x >> i) & 1u8 == 1u8 && (y >> i) & 1u8 == 1u8)) by (bit_vector)
        requires
            x & y == 0,
            i < 8,
    ;
}

proof fn lemma_byte_pos(m: int, j: int)
    requires
        0 <= m,
        0 <= j,
    ensures
        (8 * m + j) / 8 == m + j / 8,
        (8 * m + j) % 8 == j % 8,
{
    vstd::arithmetic::div_mod::lemma_hoist_over_denominator(j, m, 8);
    vstd::arithmetic::div_mod::lemma_mod_multiples_vanish(m, j, 8);
    assert(j + m * 8 == 8 * m + j);
}

impl<H: IntegerHash> Fesia<H> {
    /// Segment ends never pass later segment starts.
    proof fn lemma_end_mono(&self, t1: int, t2: int)
        requires
            self.wf(),
            0 <= t1 < t2 < self.spec_segment_count(),
        ensures
            self.start(t1) + self.size(t1) <= self.start(t2),
        decreases t2 - t1,
    {
        reveal(Fesia::wf);
        if t2 > t1 + 1 {
            self.lemma_end_mono(t1, t2 - 1);
            assert(0 <= self.size(t2 - 1));
        }
        assert(self.start(t1 + 1) == self.start(t1) + self.size(t1));
        let u = t2 - 1;
        assert(self.start(u + 1) == self.start(u) + self.size(u));
        assert(0 <= self.size(u));
    }

    /// The element at position `p` lies in the segment `segment_of` names,
    /// and is listed in it.
    proof fn lemma_position(&self, p: int)
        requires
            self.wf(),
            0 <= p < self.elements().len(),
        ensures
            0 <= self.segment_of(self.elements()[p]) < self.spec_segment_count(),
            self.start(self.segment_of(self.elements()[p])) <= p < self.start(
                self.segment_of(self.elements()[p]),
            ) + self.size(self.segment_of(self.elements()[p])),
            self.segment(self.segment_of(self.elements()[p])).contains(self.elements()[p]),
    {
        reveal(Fesia::wf);
        let t = self.segment_of(self.elements()[p]);
        assert(self.segment(t)[p - self.start(t)] == self.elements()[p]);
    }

    /// Every element of the index is listed in its own segment.
    proof fn lemma_member(&self, v: i32)
        requires
            self.wf(),
            self.elements().contains(v),
        ensures
            0 <= self.segment_of(v) < self.spec_segment_count(),
            self.segment(self.segment_of(v)).contains(v),
    {
        let p = choose|p: int| 0 <= p < self.elements().len() && self.elements()[p] == v;
        self.lemma_position(p);
    }

    /// Whether segment `s` of `self` and segment `t` of `other` have a
    /// bucket occupied in both: the AND of their bitmap stretches is nonzero.
    fn segments_meet(&self, other: &Self, s: usize, t: usize) -> (r: bool)
        requires
            self.compatible(other),
            s < self.spec_segment_count(),
            t < other.spec_segment_count(),
        ensures
            !r ==> forall|j: int|
                0 <= j < self.seg_bits() ==> !(#[trigger] self.bit(s * self.seg_bits() + j)
                    && other.bit(t * self.seg_bits() + j)),
    {
        proof {
            reveal(Fesia::wf);
            lemma_multiple_of_seg(self.hash_size, self.segment_bits);
            lemma_multiple_of_seg(other.hash_size, self.segment_bits);
        }
        let sb = self.segment_bits;
        let nbytes = sb / 8;
        let ca = self.offsets.len();
        let cb = other.offsets.len();
        assert(s * nbytes + nbytes <= self.bitmap@.len() && t * nbytes + nbytes <= other.bitmap@.len())
            by (nonlinear_arith)
            requires
                s < ca,
                t < cb,
                sb == 8 * nbytes,
                self.hash_size == ca * sb,
                other.hash_size == cb * sb,
                self.bitmap@.len() == self.hash_size / 8,
                other.bitmap@.len() == other.hash_size / 8,
        ;
        let pa = s * nbytes;
        let pb = t * nbytes;
        let la = self.bitmap.len();
        let lb = other.bitmap.len();
        let mut k: usize = 0;
        while k < nbytes
            invariant
                self.compatible(other),
                sb == self.seg_bits(),
                nbytes == sb / 8,
                pa + nbytes <= self.bitmap@.len(),
                pb + nbytes <= other.bitmap@.len(),
                la == self.bitmap@.len(),
                lb == other.bitmap@.len(),
                k <= nbytes,
                forall|q: int, i: int|
                    0 <= q < k && 0 <= i < 8 ==> !(#[trigger] byte_bit(self.bitmap@[pa + q], i)
                        && byte_bit(other.bitmap@[pb + q], i)),
            decreases nbytes - k,
        {
            let x = self.bitmap[pa + k] & other.bitmap[pb + k];
            if x != 0 {
                return true;
            }
            proof {
                assert forall|i: int| 0 <= i < 8 implies !(#[trigger] byte_bit(self.bitmap@[pa + k], i) && byte_bit(
                    other.bitmap@[pb + k],
                    i,
                )) by {
                    lemma_and_zero(self.bitmap@[pa + k], other.bitmap@[pb + k], i as u8);
                }
            }
            k = k + 1;
        }
        proof {
            assert forall|j: int| 0 <= j < sb implies !(#[trigger] self.bit(s * sb + j) && other.bit(
                t * sb + j,
            )) by {
                assert(s * sb == 8 * pa) by (nonlinear_arith)
                    requires
                        pa == s * nbytes,
                        sb == 8 * nbytes,
                ;
                assert(t * sb == 8 * pb) by (nonlinear_arith)
                    requires
                        pb == t * nbytes,
                        sb == 8 * nbytes,
                ;
                lemma_byte_pos(pa as int, j);
                lemma_byte_pos(pb as int, j);
                assert(j / 8 < nbytes);
                assert(!(byte_bit(self.bitmap@[pa + j / 8], j % 8) && byte_bit(
                    other.bitmap@[pb + j / 8],
                    j % 8,
                )));
            }
        }
        false
    }

    /// A common element has an occupied bucket at the same position of its
    /// two segments.
    proof fn lemma_meet_complete(&self, other: &Self, v: i32)
        requires
            self.compatible(other),
            self.elements().contains(v),
            other.elements().contains(v),
        ensures
            self.bit(self.segment_of(v) * self.seg_bits() + (self.bucket(v) - self.segment_of(v)
                * self.seg_bits())),
            other.bit(other.segment_of(v) * self.seg_bits() + (self.bucket(v) - self.segment_of(v)
                * self.seg_bits())),
            0 <= self.bucket(v) - self.segment_of(v) * self.seg_bits() < self.seg_bits(),
    {
        reveal(Fesia::wf);
        lemma_compatible(*self, *other, v);
        lemma_multiple_of_seg(self.hash_size, self.segment_bits);
        lemma_seg_range::<H>(v, self.hash_size, self.segment_bits);
        lemma_seg_range::<H>(v, other.hash_size, self.segment_bits);
        let sb = self.seg_bits() as int;
        let ha = self.bucket(v);
        let hb = other.bucket(v);
        let na = self.buckets() as int;
        let ca = self.spec_segment_count();
        vstd::arithmetic::div_mod::lemma_fundamental_div_mod(ha, sb);
        vstd::arithmetic::div_mod::lemma_fundamental_div_mod(hb, na);
        let q = hb / na;
        let j = ha - self.segment_of(v) * sb;
        assert(0 <= j < sb) by (nonlinear_arith)
            requires
                ha == sb * (ha / sb) + ha % sb,
                self.segment_of(v) == ha / sb,
                j == ha - self.segment_of(v) * sb,
                sb > 0,
        ;
        assert(hb == other.segment_of(v) * sb + j) by (nonlinear_arith)
            requires
                hb == na * q + hb % na,
                hb % na == ha,
                other.segment_of(v) == q * ca + self.segment_of(v),
                na == ca * sb,
                j == ha - self.segment_of(v) * sb,
        ;
        assert(self.bit(ha));
        assert(other.bit(hb));
    }
}

/// Within one block of the larger index, a common element's segments sit at
/// the same position.
proof fn lemma_same_slot(q: int, blk: int, ca: int, s1: int, s2: int)
    requires
        ca > 0,
        0 <= s1 < ca,
        0 <= s2 < ca,
        blk * ca <= q * ca + s1 < blk * ca + ca,
    ensures
        (q * ca + s1 == blk * ca + s2) <==> (s1 == s2),
        q == blk,
{
    assert(q == blk) by (nonlinear_arith)
        requires
            ca > 0,
            0 <= s1 < ca,
            blk * ca <= q * ca + s1 < blk * ca + ca,
    ;
}

impl<H: IntegerHash> Fesia<H> {
    pub open spec fn common(&self, other: &Self, v: i32) -> bool {
        self.elements().contains(v) && other.elements().contains(v)
    }

    /// Intersects segment `s` of `self` with segment `base + s` of `other`,
    /// the latter's slice running on to the end of the block (`large_max`).
    #[verifier::spinoff_prover]
    fn intersect_pair<V: Visitor, I: SegmentIntersect>(
        &self,
        other: &Self,
        base: usize,
        s: usize,
        large_max: usize,
        visitor: &mut V,
        Ghost(s0): Ghost<Seq<i32>>,
        Ghost(e): Ghost<Seq<i32>>,
        Ghost(blk): Ghost<int>,
    ) -> (e2: Ghost<Seq<i32>>)
        requires
            self.compatible(other),
            s < self.spec_segment_count(),
            base == blk * self.spec_segment_count(),
            base + self.spec_segment_count() <= other.spec_segment_count(),
            large_max == other.start(base + self.spec_segment_count() - 1) + other.size(
                base + self.spec_segment_count() - 1,
            ),
            old(visitor).inv(),
            old(visitor).seen() == s0 + e,
            e.no_duplicates(),
            forall|v: i32|
                #[trigger] e.contains(v) <==> (self.common(other, v) && other.segment_of(v) < base
                    + s),
            self.elements().len() <= old(visitor).room() + e.len(),
        ensures
            final(visitor).inv(),
            final(visitor).seen() == s0 + e2@,
            e2@.no_duplicates(),
            forall|v: i32|
                #[trigger] e2@.contains(v) <==> (self.common(other, v) && other.segment_of(v) < base
                    + s + 1),
            final(visitor).room() + e2@.len() == old(visitor).room() + e.len(),
    {
        proof {
            reveal(Fesia::wf);
        }
        let ghost ca = self.spec_segment_count();
        let t = base + s;
        let ghost last = base + ca - 1;
        assert(0 <= self.start(s as int) && 0 <= self.size(s as int));
        assert(0 <= other.start(t as int) && 0 <= other.size(t as int));
        assert(self.start(s as int) + self.size(s as int) <= self.reordered_set@.len());
        assert(other.start(t as int) + other.size(t as int) <= other.reordered_set@.len());
        let oa = self.offsets[s] as usize;
        let size_a = self.sizes[s] as usize;
        let ob = other.offsets[t] as usize;
        let size_b = other.sizes[t] as usize;
        let ghost sega = self.segment(s as int);
        let ghost segb = other.segment(t as int);
        proof {
            assert forall|v: i32| #[trigger] self.common(other, v) && other.segment_of(v) == t implies
                sega.contains(v) && segb.contains(v) by {
                lemma_compatible(*self, *other, v);
                let q = other.bucket(v) / (self.buckets() as int);
                lemma_same_slot(q, blk, ca, self.segment_of(v), s as int);
                self.lemma_member(v);
                other.lemma_member(v);
            }
            assert forall|v: i32| segb.contains(v) implies other.segment_of(v) == t && other.elements().contains(v) by {
                let k = choose|k: int| 0 <= k < segb.len() && segb[k] == v;
                assert(other.elements()[other.start(t as int) + k] == v);
            }
            assert forall|v: i32| sega.contains(v) implies self.elements().contains(v) by {
                let k = choose|k: int| 0 <= k < sega.len() && sega[k] == v;
                assert(self.elements()[self.start(s as int) + k] == v);
            }
        }
        if size_a == 0 || size_b == 0 {
            proof {
                assert forall|v: i32| #[trigger] e.contains(v) <==> (self.common(other, v)
                    && other.segment_of(v) < base + s + 1) by {
                    if self.common(other, v) && other.segment_of(v) == t {
                        assert(sega.contains(v) && segb.contains(v));
                    }
                }
            }
            return Ghost(e);
        }
        proof {
            if t < last {
                other.lemma_end_mono(t as int, last);
            }
        }
        let set_a = vstd::slice::slice_subrange(self.reordered_set.as_slice(), oa, self.reordered_set.len());
        let set_b = vstd::slice::slice_subrange(other.reordered_set.as_slice(), ob, large_max);
        let ghost chunk = inter(sega, segb);
        proof {
            assert(set_a@.take(size_a as int) =~= sega);
            assert(set_b@.take(size_b as int) =~= segb);
            assert forall|k: int| size_b <= k < set_b@.len() implies !set_a@.take(size_a as int).contains(
                #[trigger] set_b@[k],
            ) by {
                let p = ob + k;
                let y = other.elements()[p];
                assert(set_b@[k] == y);
                other.lemma_position(p);
                let t2 = other.segment_of(y);
                if t2 < t {
                    other.lemma_end_mono(t2, t as int);
                }
                if t2 > last {
                    other.lemma_end_mono(last, t2);
                }
                if sega.contains(y) {
                    assert(self.elements().contains(y));
                    lemma_compatible(*self, *other, y);
                    let q = other.bucket(y) / (self.buckets() as int);
                    lemma_same_slot(q, blk, ca, self.segment_of(y), s as int);
                }
            }
            assert forall|k: int| size_a <= k < set_a@.len() implies !set_b@.take(size_b as int).contains(
                #[trigger] set_a@[k],
            ) by {
                let p = oa + k;
                let y = self.elements()[p];
                assert(set_a@[k] == y);
                self.lemma_position(p);
                let s2 = self.segment_of(y);
                if s2 < s {
                    self.lemma_end_mono(s2, s as int);
                }
                if segb.contains(y) {
                    lemma_compatible(*self, *other, y);
                    let q = other.bucket(y) / (self.buckets() as int);
                    lemma_same_slot(q, blk, ca, s2, s as int);
                }
            }
            assert(slack_disjoint(set_a@, size_a as int, set_b@, size_b as int));
            assert(segment_pair_ok(set_a@, size_a as int, set_b@, size_b as int));
            lemma_inter_contains(sega, segb);
            crate::sets::lemma_inter_sorted(sega, segb);
            assert forall|v: i32| #[trigger] chunk.contains(v) <==> (self.common(other, v)
                && other.segment_of(v) == t) by {}
            let all = e + chunk;
            assert forall|v: i32| #[trigger] all.contains(v) <==> (e.contains(v) || chunk.contains(v)) by {
                if all.contains(v) {
                    let k = choose|k: int| 0 <= k < all.len() && all[k] == v;
                    if k < e.len() {
                        assert(e[k] == v);
                    } else {
                        assert(chunk[k - e.len()] == v);
                    }
                }
                if e.contains(v) {
                    let k = choose|k: int| 0 <= k < e.len() && e[k] == v;
                    assert(all[k] == v);
                }
                if chunk.contains(v) {
                    let k = choose|k: int| 0 <= k < chunk.len() && chunk[k] == v;
                    assert(all[e.len() + k] == v);
                }
            }
            assert(all.no_duplicates()) by {
                assert forall|x: int, y: int| 0 <= x < all.len() && 0 <= y < all.len() && x != y implies all[x]
                    != all[y] by {
                    if x < e.len() && y < e.len() {
                    } else if x >= e.len() && y >= e.len() {
                        let a1 = x - e.len();
                        let b1 = y - e.len();
                        if a1 < b1 {
                            assert(chunk[a1] < chunk[b1]);
                        } else {
                            assert(chunk[b1] < chunk[a1]);
                        }
                    } else if x < e.len() {
                        assert(e.contains(all[x]));
                        assert(chunk.contains(all[y]));
                    } else {
                        assert(e.contains(all[y]));
                        assert(chunk.contains(all[x]));
                    }
                }
            }
            assert forall|k: int| 0 <= k < all.len() implies self.elements().contains(#[trigger] all[k]) by {
                assert(all.contains(all[k]));
            }
            lemma_nodup_sub_len(all, self.elements());
        }
        I::intersect(set_a, set_b, size_a, size_b, visitor);
        proof {
            assert(s0 + e + chunk =~= s0 + (e + chunk));
        }
        Ghost(e + chunk)
    }

    /// One block of `other` (segments `base..base + segment_count`) against
    /// all of `self`, `LANES` segments at a time: the presence bits of each
    /// segment pair are ANDed, and the pairs that meet are intersected.
    #[verifier::spinoff_prover]
    fn fesia_intersect_block<V: Visitor, I: SegmentIntersect>(
        &self,
        other: &Self,
        base: usize,
        visitor: &mut V,
        Ghost(s0): Ghost<Seq<i32>>,
        Ghost(e): Ghost<Seq<i32>>,
        Ghost(blk): Ghost<int>,
    ) -> (e2: Ghost<Seq<i32>>)
        requires
            self.compatible(other),
            base == blk * self.spec_segment_count(),
            base + self.spec_segment_count() <= other.spec_segment_count(),
            old(visitor).inv(),
            old(visitor).seen() == s0 + e,
            e.no_duplicates(),
            forall|v: i32|
                #[trigger] e.contains(v) <==> (self.common(other, v) && other.segment_of(v) < base),
            self.elements().len() <= old(visitor).room() + e.len(),
        ensures
            final(visitor).inv(),
            final(visitor).seen() == s0 + e2@,
            e2@.no_duplicates(),
            forall|v: i32|
                #[trigger] e2@.contains(v) <==> (self.common(other, v) && other.segment_of(v) < base
                    + self.spec_segment_count()),
            final(visitor).room() + e2@.len() == old(visitor).room() + e.len(),
    {
        proof {
            reveal(Fesia::wf);
        }
        let ca = self.offsets.len();
        let lanes = self.lanes;
        proof {
            lemma_multiple_of_seg(self.hash_size, self.segment_bits);
            lemma_multiple_of_seg(other.hash_size, other.segment_bits);
        }
        let last = base + ca - 1;
        assert(0 <= other.start(last as int) && 0 <= other.size(last as int));
        assert(other.start(last as int) + other.size(last as int) <= other.reordered_set@.len());
        let large_max = (other.offsets[last] + other.sizes[last]) as usize;
        let ghost mut cur = e;
        let ghost room_total = visitor.room() + e.len();
        let mut small_offset: usize = 0;
        while small_offset < ca
            invariant
                self.compatible(other),
                ca == self.spec_segment_count(),
                1 <= lanes <= 64,
                base == blk * ca,
                base + ca <= other.spec_segment_count() <= MAX_HASH_SIZE,
                large_max == other.start(base + ca - 1) + other.size(base + ca - 1),
                small_offset <= ca,
                visitor.inv(),
                visitor.seen() == s0 + cur,
                cur.no_duplicates(),
                forall|v: i32|
                    #[trigger] cur.contains(v) <==> (self.common(other, v) && other.segment_of(v) < base
                        + small_offset),
                visitor.room() + cur.len() == room_total,
                self.elements().len() <= room_total,
            decreases ca - small_offset,
        {
            let mut mask: u64 = 0;
            let mut l: usize = 0;
            proof {
                assert forall|q: int| 0 <= q < 64 implies !crate::visitor::lane_on(mask, q) by {
                    crate::shuffling::lemma_lane_zero(q as u64);
                }
            }
            while l < lanes && small_offset + l < ca
                invariant
                    self.compatible(other),
                    ca == self.spec_segment_count(),
                    1 <= lanes <= 64,
                    base == blk * ca,
                    base + ca <= other.spec_segment_count() <= MAX_HASH_SIZE,
                    small_offset < ca,
                    l <= lanes,
                    small_offset + l <= ca,
                    forall|q: int| l <= q < 64 ==> !crate::visitor::lane_on(mask, q),
                    forall|q: int, v: i32|
                        #![trigger crate::visitor::lane_on(mask, q), self.common(other, v)]
                        0 <= q < l && !crate::visitor::lane_on(mask, q) ==> !(self.common(
                            other,
                            v,
                        ) && other.segment_of(v) == base + small_offset + q),
                decreases lanes - l,
            {
                let s = small_offset + l;
                let meet = self.segments_meet(other, s, base + s);
                let old_mask = mask;
                if meet {
                    mask = mask | (1u64 << (l as u64));
                }
                proof {
                    assert forall|q: int| 0 <= q < 64 implies (crate::visitor::lane_on(mask, q) <==> (
                    crate::visitor::lane_on(old_mask, q) || (meet && q == l))) by {
                        if meet {
                            crate::shuffling::lemma_lane_set(old_mask, l as u64, q as u64);
                        }
                    }
                    if !meet {
                        assert forall|v: i32| !(#[trigger] self.common(other, v) && other.segment_of(v)
                            == base + s) by {
                            if self.common(other, v) && other.segment_of(v) == base + s {
                                lemma_compatible(*self, *other, v);
                                let q = other.bucket(v) / (self.buckets() as int);
                                lemma_same_slot(q, blk, ca as int, self.segment_of(v), s as int);
                                self.lemma_meet_complete(other, v);
                            }
                        }
                    }
                }
                l = l + 1;
            }
            let n = l;
            let mut l: usize = 0;
            while l < n
                invariant
                    self.compatible(other),
                    ca == self.spec_segment_count(),
                    base == blk * ca,
                    base + ca <= other.spec_segment_count(),
                    large_max == other.start(base + ca - 1) + other.size(base + ca - 1),
                    small_offset + n <= ca,
                    n <= 64,
                    l <= n,
                    forall|q: int, v: i32|
                        #![trigger crate::visitor::lane_on(mask, q), self.common(other, v)]
                        0 <= q < n && !crate::visitor::lane_on(mask, q) ==> !(self.common(
                            other,
                            v,
                        ) && other.segment_of(v) == base + small_offset + q),
                    visitor.inv(),
                    visitor.seen() == s0 + cur,
                    cur.no_duplicates(),
                    forall|v: i32|
                        #[trigger] cur.contains(v) <==> (self.common(other, v) && other.segment_of(v)
                            < base + small_offset + l),
                    visitor.room() + cur.len() == room_total,
                    self.elements().len() <= room_total,
                decreases n - l,
            {
                if (mask >> (l as u64)) & 1u64 == 1u64 {
                    let Ghost(next) = self.intersect_pair::<V, I>(
                        other,
                        base,
                        small_offset + l,
                        large_max,
                        visitor,
                        Ghost(s0),
                        Ghost(cur),
                        Ghost(blk),
                    );
                    proof {
                        cur = next;
                    }
                } else {
                    proof {
                        assert forall|v: i32| #[trigger] cur.contains(v) <==> (self.common(other, v)
                            && other.segment_of(v) < base + small_offset + l + 1) by {
                            if self.common(other, v) && other.segment_of(v) == base + small_offset + l {
                                assert(!crate::visitor::lane_on(mask, l as int));
                                assert(!(self.common(other, v) && other.segment_of(v) == base + small_offset
                                    + l));
                            }
                        }
                    }
                }
                l = l + 1;
            }
            small_offset = small_offset + n;
        }
        Ghost(cur)
    }

    /// Similar-size intersection of two indexes with segment policy `I`:
    /// each block of the index with more segments is intersected with the
    /// other index. Emits every common element once, grouped by segment.
    pub fn intersect<V: Visitor, I: SegmentIntersect>(&self, other: &Self, visitor: &mut V)
        requires
            self.wf(),
            other.wf(),
            self.seg_bits() == other.seg_bits(),
            old(visitor).inv(),
            (if self.spec_segment_count() <= other.spec_segment_count() {
                self.elements().len()
            } else {
                other.elements().len()
            }) <= old(visitor).room(),
        ensures
            final(visitor).inv(),
            final(visitor).seen().len() >= old(visitor).seen().len(),
            final(visitor).seen().take(old(visitor).seen().len() as int) == old(visitor).seen(),
            final(visitor).seen().skip(old(visitor).seen().len() as int).no_duplicates(),
            forall|v: i32|
                #[trigger] final(visitor).seen().skip(old(visitor).seen().len() as int).contains(v)
                    <==> (self.elements().contains(v) && other.elements().contains(v)),
            final(visitor).room() == old(visitor).room() - (final(visitor).seen().len()
                - old(visitor).seen().len()),
    {
        if self.segment_count() > other.segment_count() {
            other.intersect_ordered::<V, I>(self, visitor);
        } else {
            self.intersect_ordered::<V, I>(other, visitor);
        }
    }

    /// Intersects two indexes by the chosen method. The skewed method probes
    /// the index with more segments for each element of the other.
    pub fn intersect_with<V: Visitor>(&self, other: &Self, method: FesiaIntersectMethod, visitor: &mut V)
        requires
            self.wf(),
            other.wf(),
            self.seg_bits() == other.seg_bits(),
            old(visitor).inv(),
            (if self.spec_segment_count() <= other.spec_segment_count() {
                self.elements().len()
            } else {
                other.elements().len()
            }) <= old(visitor).room(),
        ensures
            final(visitor).inv(),
            final(visitor).seen().len() >= old(visitor).seen().len(),
            final(visitor).seen().take(old(visitor).seen().len() as int) == old(visitor).seen(),
            final(visitor).seen().skip(old(visitor).seen().len() as int).no_duplicates(),
            forall|v: i32|
                #[trigger] final(visitor).seen().skip(old(visitor).seen().len() as int).contains(v)
                    <==> (self.elements().contains(v) && other.elements().contains(v)),
            final(visitor).room() == old(visitor).room() - (final(visitor).seen().len()
                - old(visitor).seen().len()),
    {
        match method {
            FesiaIntersectMethod::SimilarSize => self.intersect::<V, SegmentIntersectSse>(other, visitor),
            FesiaIntersectMethod::SimilarSizeShuffling => self.intersect::<V, SegmentIntersectShufflingSse>(
                other,
                visitor,
            ),
            FesiaIntersectMethod::SimilarSizeSplat => self.intersect::<V, SegmentIntersectSplatSse>(
                other,
                visitor,
            ),
            FesiaIntersectMethod::SimilarSizeTable => self.intersect::<V, SegmentIntersectTableSse>(
                other,
                visitor,
            ),
            FesiaIntersectMethod::Skewed => {
                let ca = self.segment_count();
                let cb = other.segment_count();
                proof {
                    reveal(Fesia::wf);
                    lemma_multiple_of_seg(self.hash_size, self.segment_bits);
                    lemma_multiple_of_seg(other.hash_size, self.segment_bits);
                    assert((ca <= cb) == (self.hash_size <= other.hash_size)) by (nonlinear_arith)
                        requires
                            self.hash_size == ca * self.segment_bits,
                            other.hash_size == cb * self.segment_bits,
                            self.segment_bits > 0,
                    ;
                }
                if ca <= cb {
                    self.hash_intersect(other, visitor);
                } else {
                    other.hash_intersect(self, visitor);
                    proof {
                        let emitted = visitor.seen().skip(old(visitor).seen().len() as int);
                        assert forall|v: i32| #[trigger] emitted.contains(v) <==> (self.elements().contains(v)
                            && other.elements().contains(v)) by {
                            assert(emitted.contains(v) <==> (other.elements().contains(v)
                                && self.elements().contains(v)));
                        }
                    }
                }
            },
        }
    }

    fn intersect_ordered<V: Visitor, I: SegmentIntersect>(&self, other: &Self, visitor: &mut V)
        requires
            self.wf(),
            other.wf(),
            self.seg_bits() == other.seg_bits(),
            self.spec_segment_count() <= other.spec_segment_count(),
            old(visitor).inv(),
            self.elements().len() <= old(visitor).room(),
        ensures
            final(visitor).inv(),
            final(visitor).seen().len() >= old(visitor).seen().len(),
            final(visitor).seen().take(old(visitor).seen().len() as int) == old(visitor).seen(),
            final(visitor).seen().skip(old(visitor).seen().len() as int).no_duplicates(),
            forall|v: i32|
                #[trigger] final(visitor).seen().skip(old(visitor).seen().len() as int).contains(v)
                    <==> (self.elements().contains(v) && other.elements().contains(v)),
            final(visitor).room() == old(visitor).room() - (final(visitor).seen().len()
                - old(visitor).seen().len()),
    {
        let ca = self.segment_count();
        let cb = other.segment_count();
        proof {
            reveal(Fesia::wf);
            lemma_multiple_of_seg(self.hash_size, self.segment_bits);
            lemma_multiple_of_seg(other.hash_size, self.segment_bits);
            assert(self.hash_size <= other.hash_size) by (nonlinear_arith)
                requires
                    self.hash_size == ca * self.segment_bits,
                    other.hash_size == cb * self.segment_bits,
                    ca <= cb,
                    self.segment_bits > 0,
            ;
            lemma_compatible(*self, *other, 0i32);
        }
        let blocks = cb / ca;
        proof {
            vstd::arithmetic::div_mod::lemma_fundamental_div_mod(cb as int, ca as int);
            assert(cb == blocks * ca) by (nonlinear_arith)
                requires
                    cb == ca * (cb / ca) + cb % ca,
                    cb % ca == 0,
                    blocks == cb / ca,
            ;
        }
        let ghost s0 = visitor.seen();
        let ghost r0 = visitor.room();
        let ghost mut e: Seq<i32> = Seq::empty();
        proof {
            assert forall|v: i32| #[trigger] e.contains(v) <==> (self.common(other, v) && other.segment_of(v)
                < 0) by {
                lemma_seg_range::<H>(v, other.buckets(), other.seg_bits());
            }
            assert(visitor.seen() =~= s0 + e);
        }
        let mut block: usize = 0;
        while block < blocks
            invariant
                self.compatible(other),
                ca == self.spec_segment_count(),
                cb == other.spec_segment_count(),
                cb == blocks * ca,
                ca >= 8,
                block <= blocks,
                visitor.inv(),
                visitor.seen() == s0 + e,
                e.no_duplicates(),
                forall|v: i32|
                    #[trigger] e.contains(v) <==> (self.common(other, v) && other.segment_of(v) < block
                        * ca),
                visitor.room() + e.len() == r0,
                self.elements().len() <= r0,
            decreases blocks - block,
        {
            assert(block * ca + ca <= cb) by (nonlinear_arith)
                requires
                    block < blocks,
                    cb == blocks * ca,
            ;
            let base = block * ca;
            let Ghost(next) = self.fesia_intersect_block::<V, I>(
                other,
                base,
                visitor,
                Ghost(s0),
                Ghost(e),
                Ghost(block as int),
            );
            proof {
                e = next;
            }
            block = block + 1;
            proof {
                assert(base + ca == block * ca) by (nonlinear_arith)
                    requires
                        base == (block - 1) * ca,
                ;
            }
        }
        proof {
            assert forall|v: i32| #[trigger] e.contains(v) <==> (self.elements().contains(v)
                && other.elements().contains(v)) by {
                lemma_seg_range::<H>(v, other.buckets(), other.seg_bits());
            }
            assert(visitor.seen().take(s0.len() as int) =~= s0);
            assert(visitor.seen().skip(s0.len() as int) =~= e);
        }
    }
}

/// An index lists back exactly the set it was built from, in order.
pub proof fn law_round_trip<H: IntegerHash>(f: Fesia<H>, set: Seq<i32>, listed: Seq<i32>)
    requires
        sorted(set),
        forall|v: i32| #[trigger] f.elements().contains(v) <==> set.contains(v),
        sorted(listed),
        forall|v: i32| #[trigger] listed.contains(v) <==> f.elements().contains(v),
    ensures
        listed == set,
{
    assert forall|v: i32| listed.contains(v) <==> set.contains(v) by {
        assert(listed.contains(v) <==> f.elements().contains(v));
    }
    lemma_sorted_eq(listed, set);
}

/// The presence bit of every element's bucket is set.
pub proof fn law_bitmap_covers<H: IntegerHash>(f: Fesia<H>, x: i32)
    requires
        f.wf(),
        f.elements().contains(x),
    ensures
        0 <= f.bucket(x) < f.buckets(),
        f.bit(f.bucket(x)),
{
    reveal(Fesia::wf);
    lemma_seg_range::<H>(x, f.buckets(), f.seg_bits());
    assert(f.bit(f.bucket(x)));
}

} // verus!
