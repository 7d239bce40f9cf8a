use setops::dispatch::Kernel;
use setops::svs::{as_svs, svs, svs_inplace};

#[test]
fn svs_three_sets() {
    let s0: Vec<i32> = vec![2, 4, 6, 8, 10];
    let s1: Vec<i32> = (0..20).collect();
    let s2: Vec<i32> = (0..40).map(|x| x * 2).filter(|x| x % 4 == 0).collect();
    let sets: Vec<&[i32]> = vec![&s0, &s1, &s2];
    let mut out = vec![0; s0.len()];
    let n = svs(&sets, &mut out);
    assert_eq!(&out[..n], &[4, 8]);
}

#[test]
fn svs_two_sets() {
    let s0 = [7];
    let s1 = [1, 2, 3, 4, 5, 6, 7, 8, 9, 10];
    let sets: Vec<&[i32]> = vec![&s0, &s1];
    let mut out = vec![0; 1];
    let n = svs(&sets, &mut out);
    assert_eq!(&out[..n], &[7]);
}

#[test]
fn svs_empty_result() {
    let s0 = [1, 3];
    let s1 = [2, 4, 6];
    let s2 = [1, 2, 3, 4];
    let sets: Vec<&[i32]> = vec![&s0, &s1, &s2];
    let mut out = vec![0; 2];
    assert_eq!(svs(&sets, &mut out), 0);
}

fn run_as_svs(sets: &[&[i32]], k: Kernel) -> (Vec<i32>, usize) {
    let mut out0 = vec![0; sets[0].len()];
    let mut out1 = vec![0; sets[0].len()];
    let (n, which) = as_svs(sets, &mut out0, &mut out1, k);
    let out = if which == 0 { out0 } else { out1 };
    (out[..n].to_vec(), which)
}

#[test]
fn as_svs_parity_of_buffer() {
    let s0 = [1, 2, 3, 4, 5, 6];
    let s1 = [2, 3, 4, 5, 6, 7, 8];
    let s2 = [0, 2, 4, 6, 8, 10, 12, 14];
    let s3 = [2, 6, 7, 8, 9, 10, 11, 12, 13];
    for k in [Kernel::NaiveMerge, Kernel::ShufflingSse, Kernel::ShufflingAvx2, Kernel::Galloping] {
        let (r2, w2) = run_as_svs(&[&s0, &s1], k);
        assert_eq!(r2, vec![2, 3, 4, 5, 6]);
        assert_eq!(w2, 1);
        let (r3, w3) = run_as_svs(&[&s0, &s1, &s2], k);
        assert_eq!(r3, vec![2, 4, 6]);
        assert_eq!(w3, 0);
        let (r4, w4) = run_as_svs(&[&s0, &s1, &s2, &s3], k);
        assert_eq!(r4, vec![2, 6]);
        assert_eq!(w4, 1);
    }
}

#[test]
fn as_svs_agrees_with_svs() {
    let s0: Vec<i32> = (0..50).map(|x| x * 3).collect();
    let s1: Vec<i32> = (0..100).map(|x| x * 2).collect();
    let s2: Vec<i32> = (0..200).collect();
    let sets: Vec<&[i32]> = vec![&s0, &s1, &s2];
    let mut out = vec![0; s0.len()];
    let n = svs(&sets, &mut out);
    let (r, _) = run_as_svs(&sets, Kernel::ShufflingAvx512);
    assert_eq!(r, out[..n].to_vec());
    assert_eq!(r, (0..50).map(|x| x * 3).filter(|x| x % 2 == 0).collect::<Vec<i32>>());
}

#[test]
fn svs_leaves_tail_of_out() {
    let s0 = [1, 2, 3];
    let s1 = [2, 3, 4];
    let sets: Vec<&[i32]> = vec![&s0, &s1];
    let mut out = vec![0, 0, 0, 77, 88];
    let n = svs(&sets, &mut out);
    assert_eq!(&out[..n], &[2, 3]);
    assert_eq!(&out[3..], &[77, 88]);
}

#[test]
fn svs_inplace_front_of_first() {
    let mut first = [1, 2, 3, 4, 5, 6, 7, 8];
    let s1: Vec<i32> = (0..20).filter(|x| x % 2 == 0).collect();
    let s2: Vec<i32> = (0..20).filter(|x| x % 3 == 0).collect();
    let rest: Vec<&[i32]> = vec![&s1, &s2];
    let n = svs_inplace(&mut first, &rest);
    assert_eq!(&first[..n], &[6]);
    let mut single = [7];
    let big: Vec<i32> = (1..=10).collect();
    assert_eq!(svs_inplace(&mut single, &[&big]), 1);
    assert_eq!(single, [7]);
}
