use setops::dispatch::{get_2set_algorithm, Kernel};
use setops::merge::{baezayates, bmiss_scalar_3x, bmiss_scalar_4x, branchless_merge, galloping, galloping_inplace, gallop, naive_merge};
use setops::shuffling::{simd_shuffling, simd_shuffling_avx2, simd_shuffling_avx512};
use setops::visitor::{visit_vector, Counter, SliceWriter, VecWriter};

const ALL: [Kernel; 9] = [
    Kernel::NaiveMerge,
    Kernel::BranchlessMerge,
    Kernel::BmissScalar3x,
    Kernel::BmissScalar4x,
    Kernel::Galloping,
    Kernel::BaezaYates,
    Kernel::ShufflingSse,
    Kernel::ShufflingAvx2,
    Kernel::ShufflingAvx512,
];

fn run(k: Kernel, a: &[i32], b: &[i32]) -> Vec<i32> {
    let mut w = VecWriter::new();
    k.run(a, b, &mut w);
    w.into_vec()
}

fn check_all(a: &[i32], b: &[i32], expected: &[i32]) {
    for k in ALL {
        assert_eq!(run(k, a, b), expected, "{:?} on a, b", k);
        assert_eq!(run(k, b, a), expected, "{:?} on b, a", k);
    }
}

#[test]
fn overlap_of_two() {
    check_all(&[1, 2, 3, 4], &[3, 4, 5, 6], &[3, 4]);
}

#[test]
fn empty_side() {
    check_all(&[], &[1, 2, 3], &[]);
    check_all(&[], &[], &[]);
}

#[test]
fn alternating_disjoint() {
    check_all(&[1, 3, 5, 7, 9, 11, 13, 15], &[2, 4, 6, 8, 10, 12, 14, 16], &[]);
}

#[test]
fn large_ranges_prologue_and_tail() {
    let a: Vec<i32> = (1..=1024).collect();
    let b: Vec<i32> = (512..=1535).collect();
    let expected: Vec<i32> = (512..=1024).collect();
    check_all(&a, &b, &expected);
}

#[test]
fn singleton_against_range() {
    check_all(&[7], &[1, 2, 3, 4, 5, 6, 7, 8, 9, 10], &[7]);
}

#[test]
fn signed_ordering() {
    check_all(&[-3, -1, 0, 2, 5], &[-1, 0, 1, 5, 9], &[-1, 0, 5]);
}

#[test]
fn equal_inputs_give_input() {
    let a: Vec<i32> = (0..37).map(|x| x * 3 - 50).collect();
    check_all(&a, &a, &a);
}

#[test]
fn one_below_the_other() {
    let a: Vec<i32> = (0..20).collect();
    let b: Vec<i32> = (100..140).collect();
    check_all(&a, &b, &[]);
}

#[test]
fn lane_boundaries() {
    for n in [3usize, 4, 5, 7, 8, 9, 15, 16, 17] {
        let a: Vec<i32> = (0..n as i32).collect();
        let b: Vec<i32> = (0..n as i32).map(|x| x * 2).collect();
        let expected: Vec<i32> = a.iter().copied().filter(|x| x % 2 == 0).collect();
        check_all(&a, &b, &expected);
    }
}

#[test]
fn extremes_of_i32() {
    check_all(&[i32::MIN, 0, i32::MAX], &[i32::MIN, 1, i32::MAX], &[i32::MIN, i32::MAX]);
}

#[test]
fn output_no_longer_than_inputs() {
    let a: Vec<i32> = (0..300).map(|x| x * 5).collect();
    let b: Vec<i32> = (0..50).map(|x| x * 3).collect();
    for k in ALL {
        let r = run(k, &a, &b);
        assert!(r.len() <= a.len().min(b.len()));
        assert!(r.iter().all(|x| a.contains(x) && b.contains(x)));
    }
}

#[test]
fn direct_kernel_entry_points() {
    let a = [1, 2, 3, 4, 10, 20, 30, 40, 50];
    let b = [2, 4, 6, 8, 10, 30, 50, 70, 90];
    let expected = vec![2, 4, 10, 30, 50];
    let mut w = VecWriter::new();
    naive_merge(&a, &b, &mut w);
    assert_eq!(w.into_vec(), expected);
    let mut w = VecWriter::new();
    branchless_merge(&a, &b, &mut w);
    assert_eq!(w.into_vec(), expected);
    let mut w = VecWriter::new();
    galloping(&a, &b, &mut w);
    assert_eq!(w.into_vec(), expected);
    let mut w = VecWriter::new();
    bmiss_scalar_3x(&a, &b, &mut w);
    assert_eq!(w.into_vec(), expected);
    let mut w = VecWriter::new();
    bmiss_scalar_4x(&a, &b, &mut w);
    assert_eq!(w.into_vec(), expected);
    let mut w = VecWriter::new();
    baezayates(&a, &b, &mut w);
    assert_eq!(w.into_vec(), expected);
    let mut w = VecWriter::new();
    simd_shuffling(&a, &b, &mut w);
    assert_eq!(w.into_vec(), expected);
    let mut w = VecWriter::new();
    simd_shuffling_avx2(&a, &b, &mut w);
    assert_eq!(w.into_vec(), expected);
    let mut w = VecWriter::new();
    simd_shuffling_avx512(&a, &b, &mut w);
    assert_eq!(w.into_vec(), expected);
}

#[test]
fn gallop_finds_first_not_below() {
    let large = [1, 3, 5, 7, 9, 11, 13];
    assert_eq!(gallop(&large, 0, 6), 3);
    assert_eq!(gallop(&large, 0, 7), 3);
    assert_eq!(gallop(&large, 4, 1), 4);
    assert_eq!(gallop(&large, 0, 100), 7);
    assert_eq!(gallop(&large, 7, 0), 7);
}

#[test]
fn galloping_in_place_front() {
    let mut small = [2, 5, 9, 12, 99, 100];
    let n = galloping_inplace(&mut small, 4, &[1, 2, 3, 9, 10, 12]);
    assert_eq!(n, 3);
    assert_eq!(&small[..3], &[2, 9, 12]);
    assert_eq!(&small[4..], &[99, 100]);
}

#[test]
fn counter_counts() {
    let mut c = Counter::new();
    Kernel::BranchlessMerge.run(&[1, 2, 3, 4], &[3, 4, 5, 6], &mut c);
    assert_eq!(c.total(), 2);
}

#[test]
fn slice_writer_fills_region() {
    let mut w = SliceWriter::from_vec(vec![0; 4]);
    Kernel::ShufflingSse.run(&[1, 2, 3, 4], &[3, 4, 5, 6], &mut w);
    assert_eq!(w.len, 2);
    assert_eq!(&w.buf[..2], &[3, 4]);
}

#[test]
fn vector_visit_in_lane_order() {
    let mut w = VecWriter::new();
    visit_vector(&mut w, &[10, 20, 30, 40], 0b1010);
    assert_eq!(w.into_vec(), vec![20, 40]);
    let mut w = VecWriter::new();
    visit_vector(&mut w, &[10, 20, 30, 40], 0);
    assert_eq!(w.into_vec(), Vec::<i32>::new());
}

#[test]
fn clear_from_truncates() {
    let mut w = VecWriter::new();
    Kernel::NaiveMerge.run(&[1, 2, 3], &[1, 2, 3], &mut w);
    w.clear_from(1);
    assert_eq!(w.into_vec(), vec![1]);
}

#[test]
fn dispatch_by_name() {
    assert_eq!(get_2set_algorithm("naive_merge"), Some(Kernel::NaiveMerge));
    assert_eq!(get_2set_algorithm("branchless_merge"), Some(Kernel::BranchlessMerge));
    assert_eq!(get_2set_algorithm("bmiss_scalar_3x"), Some(Kernel::BmissScalar3x));
    assert_eq!(get_2set_algorithm("bmiss_scalar_4x"), Some(Kernel::BmissScalar4x));
    assert_eq!(get_2set_algorithm("galloping"), Some(Kernel::Galloping));
    assert_eq!(get_2set_algorithm("baezayates"), Some(Kernel::BaezaYates));
    assert_eq!(get_2set_algorithm("shuffling_sse"), Some(Kernel::ShufflingSse));
    assert_eq!(get_2set_algorithm("shuffling_avx2"), Some(Kernel::ShufflingAvx2));
    assert_eq!(get_2set_algorithm("shuffling_avx512"), Some(Kernel::ShufflingAvx512));
    assert_eq!(get_2set_algorithm("qfilter_xyz"), None);
    assert_eq!(get_2set_algorithm(""), None);
}
