use setops::fesia::{masked_hash, Fesia, HashScale, IdentityHash, IntegerHash, MixHash, SimdType};
use setops::segment::{
    kernel_table, segment_comp, MicroKernel, SegmentIntersect, SegmentIntersectShufflingAvx2,
    SegmentIntersectSse, SegmentIntersectTableSse,
};
use setops::visitor::VecWriter;

fn scale(n: u32, d: u32) -> HashScale {
    HashScale { numer: n, denom: d }
}

#[test]
fn mix_hash_values() {
    assert_eq!(MixHash::hash(0), 0);
    assert_eq!(MixHash::hash(1), 316017654);
    assert_eq!(MixHash::hash(-1), 316035995);
    assert_eq!(MixHash::hash(12345), 1521615624);
    assert_eq!(IdentityHash::hash(-7), -7);
}

#[test]
fn masked_hash_range() {
    assert_eq!(masked_hash::<IdentityHash>(1000, 512), 1000 & 511);
    assert_eq!(masked_hash::<IdentityHash>(-1, 512), 511);
    assert_eq!(masked_hash::<MixHash>(1, 1024), 316017654 & 1023);
}

#[test]
fn bucket_count_formula() {
    let small: Vec<i32> = (0..10).collect();
    let f = Fesia::<MixHash>::from_sorted(&small, scale(2, 1), 8, SimdType::Sse);
    assert_eq!(f.hash_size(), 512);
    assert_eq!(f.segment_count(), 64);
    let big: Vec<i32> = (0..1000).collect();
    let f = Fesia::<MixHash>::from_sorted(&big, scale(2, 1), 16, SimdType::Avx2);
    assert_eq!(f.hash_size(), 2048);
    assert_eq!(f.segment_count(), 128);
    let f = Fesia::<MixHash>::from_sorted(&big, scale(3, 2), 32, SimdType::Avx512);
    assert_eq!(f.hash_size(), 2048);
    let f = Fesia::<MixHash>::from_sorted(&big, scale(1, 1), 32, SimdType::Avx512);
    assert_eq!(f.hash_size(), 1024);
}

#[test]
fn round_trip_to_sorted_set() {
    let sets: Vec<Vec<i32>> = vec![
        vec![],
        vec![5],
        (0..1000).map(|x| x * 7 - 3000).collect(),
        vec![i32::MIN, -1, 0, 1, i32::MAX],
    ];
    for s in &sets {
        for bits in [8usize, 16, 32, 64] {
            let f = Fesia::<MixHash>::from_sorted(s, scale(2, 1), bits, SimdType::Avx512);
            assert_eq!(&f.to_sorted_set(), s);
            let g = Fesia::<IdentityHash>::from_sorted(s, scale(1, 1), bits, SimdType::Sse);
            assert_eq!(&g.to_sorted_set(), s);
        }
    }
}

#[test]
fn bitmap_covers_every_element() {
    let s: Vec<i32> = (0..700).map(|x| x * 13 + 1).collect();
    let f = Fesia::<MixHash>::from_sorted(&s, scale(4, 1), 8, SimdType::Sse);
    for &x in &s {
        let h = masked_hash::<MixHash>(x, f.hash_size());
        assert!(f.bucket_is_set(h as usize));
    }
    let empty = Fesia::<MixHash>::from_sorted(&[], scale(4, 1), 8, SimdType::Sse);
    assert!((0..empty.hash_size()).all(|h| !empty.bucket_is_set(h)));
}

#[test]
fn kernel_table_entries() {
    let t = kernel_table();
    assert_eq!(t.len(), 64);
    assert_eq!(t[0o11], Some(MicroKernel { small: 1, large: 4 }));
    assert_eq!(t[0o17], Some(MicroKernel { small: 1, large: 8 }));
    assert_eq!(t[0o34], Some(MicroKernel { small: 3, large: 4 }));
    assert_eq!(t[0o44], Some(MicroKernel { small: 4, large: 4 }));
    assert_eq!(t[0o77], Some(MicroKernel { small: 7, large: 8 }));
    assert_eq!(t[0o10], None);
    assert_eq!(t[0o21], None);
    assert_eq!(t[0], None);
    assert_eq!(t.iter().filter(|e| e.is_some()).count(), 28);
}

#[test]
fn segment_micro_kernel_with_slack() {
    let a = [1, 2, 3, 10, 11, 12, 13, 14];
    let b = [2, 3, 4, 20, 21, 22, 23, 24];
    let mut w = VecWriter::new();
    segment_comp(&a, &b, 3, 3, &mut w);
    assert_eq!(w.into_vec(), vec![2, 3]);
    let c = [2, 30, 31, 32, 33, 34, 35, 36];
    let mut w = VecWriter::new();
    SegmentIntersectSse::intersect(&a, &c, 3, 1, &mut w);
    assert_eq!(w.into_vec(), vec![2]);
    let d = [5, 30, 31, 32, 33, 34, 35, 36];
    let mut w = VecWriter::new();
    SegmentIntersectSse::intersect(&a, &d, 3, 1, &mut w);
    assert_eq!(w.into_vec(), Vec::<i32>::new());
    let mut w = VecWriter::new();
    SegmentIntersectTableSse::intersect(&b, &a, 2, 3, &mut w);
    assert_eq!(w.into_vec(), vec![2, 3]);
    let mut w = VecWriter::new();
    SegmentIntersectShufflingAvx2::intersect(&a, &b, 3, 3, &mut w);
    assert_eq!(w.into_vec(), vec![2, 3]);
}

#[test]
fn segment_falls_back_to_merge() {
    let a: Vec<i32> = (0..9).collect();
    let b = [1, 3, 5];
    let mut w = VecWriter::new();
    segment_comp(&a, &b, 9, 3, &mut w);
    assert_eq!(w.into_vec(), vec![1, 3, 5]);
}

use setops::fesia::FesiaIntersectMethod;
use setops::segment::{SegmentIntersectShufflingAvx512, SegmentIntersectSplatSse};

const METHODS: [FesiaIntersectMethod; 5] = [
    FesiaIntersectMethod::SimilarSize,
    FesiaIntersectMethod::SimilarSizeShuffling,
    FesiaIntersectMethod::SimilarSizeSplat,
    FesiaIntersectMethod::SimilarSizeTable,
    FesiaIntersectMethod::Skewed,
];

fn sorted_output(mut v: Vec<i32>) -> Vec<i32> {
    v.sort();
    v
}

fn expected(a: &[i32], b: &[i32]) -> Vec<i32> {
    a.iter().copied().filter(|x| b.contains(x)).collect()
}

fn check_fesia(a: &[i32], b: &[i32], sa: HashScale, sb: HashScale, bits: usize, simd: SimdType) {
    let fa = Fesia::<MixHash>::from_sorted(a, sa, bits, simd);
    let fb = Fesia::<MixHash>::from_sorted(b, sb, bits, simd);
    let want = expected(a, b);
    for m in METHODS {
        let mut w = VecWriter::new();
        fa.intersect_with(&fb, m, &mut w);
        let got = w.into_vec();
        assert_eq!(got.len(), want.len(), "{:?}", m);
        assert_eq!(sorted_output(got), want, "{:?}", m);
        let mut w = VecWriter::new();
        fb.intersect_with(&fa, m, &mut w);
        assert_eq!(sorted_output(w.into_vec()), want, "{:?} swapped", m);
    }
}

#[test]
fn fesia_scenarios() {
    let cases: Vec<(Vec<i32>, Vec<i32>)> = vec![
        (vec![1, 2, 3, 4], vec![3, 4, 5, 6]),
        (vec![], vec![1, 2, 3]),
        (vec![1, 3, 5, 7, 9, 11, 13, 15], vec![2, 4, 6, 8, 10, 12, 14, 16]),
        ((1..=1024).collect(), (512..=1535).collect()),
        (vec![7], (1..=10).collect()),
        (vec![-3, -1, 0, 2, 5], vec![-1, 0, 1, 5, 9]),
    ];
    for (a, b) in &cases {
        for bits in [8usize, 16, 32, 64] {
            check_fesia(a, b, scale(2, 1), scale(2, 1), bits, SimdType::Sse);
        }
    }
}

#[test]
fn fesia_different_hash_sizes() {
    let a: Vec<i32> = (0..300).map(|x| x * 7).collect();
    let b: Vec<i32> = (0..5000).map(|x| x * 3).collect();
    let fa = Fesia::<MixHash>::from_sorted(&a, scale(1, 1), 16, SimdType::Avx2);
    let fb = Fesia::<MixHash>::from_sorted(&b, scale(1, 1), 16, SimdType::Avx2);
    assert_eq!(fa.hash_size(), 512);
    assert_eq!(fb.hash_size(), 8192);
    check_fesia(&a, &b, scale(1, 1), scale(1, 1), 16, SimdType::Avx2);
    check_fesia(&a, &b, scale(4, 1), scale(1, 2), 32, SimdType::Avx512);
    check_fesia(&a, &b, scale(1, 1), scale(8, 1), 8, SimdType::Sse);
}

#[test]
fn fesia_dense_small_segments() {
    let a: Vec<i32> = (0..4000).collect();
    let b: Vec<i32> = (0..4000).filter(|x| x % 3 != 0).collect();
    check_fesia(&a, &b, scale(1, 4), scale(1, 4), 8, SimdType::Sse);
    check_fesia(&a, &a, scale(1, 1), scale(1, 1), 64, SimdType::Avx512);
}

#[test]
fn fesia_generic_policies_and_hash_intersect() {
    let a: Vec<i32> = (0..200).map(|x| x * 5 - 300).collect();
    let b: Vec<i32> = (0..400).map(|x| x * 2 - 300).collect();
    let fa = Fesia::<IdentityHash>::from_sorted(&a, scale(2, 1), 16, SimdType::Sse);
    let fb = Fesia::<IdentityHash>::from_sorted(&b, scale(2, 1), 16, SimdType::Sse);
    let want = expected(&a, &b);
    let mut w = VecWriter::new();
    fa.intersect::<VecWriter, SegmentIntersectSplatSse>(&fb, &mut w);
    assert_eq!(sorted_output(w.into_vec()), want);
    let mut w = VecWriter::new();
    fa.intersect::<VecWriter, SegmentIntersectShufflingAvx512>(&fb, &mut w);
    assert_eq!(sorted_output(w.into_vec()), want);
    let mut w = VecWriter::new();
    fa.hash_intersect(&fb, &mut w);
    assert_eq!(sorted_output(w.into_vec()), want);
}

#[test]
fn segment_fallback_needs_no_slack() {
    let a = [1, 2, 3];
    let b = [2, 3, 9];
    let mut w = VecWriter::new();
    segment_comp(&a, &b, 3, 3, &mut w);
    assert_eq!(w.into_vec(), vec![2, 3]);
    let mut w = VecWriter::new();
    segment_comp(&a, &b, 0, 3, &mut w);
    assert_eq!(w.into_vec(), Vec::<i32>::new());
}

#[test]
fn segment_slack_beyond_eighth_element_ignored() {
    let a = [1, 2, 3, 10, 11, 12, 13, 14, 2];
    let b = [2, 3, 4, 20, 21, 22, 23, 24, 1];
    let mut w = VecWriter::new();
    segment_comp(&a, &b, 3, 3, &mut w);
    assert_eq!(w.into_vec(), vec![2, 3]);
}
