use oblivious::pow2::{ceil_pow2, floor_pow2};
use oblivious::sort::bitonic::{
    bitonic_merge, bitonic_pass, bitonic_sort, parallel_bitonic_merge, parallel_bitonic_pass,
    parallel_bitonic_sort,
};
use oblivious::sort::osort;
use oblivious::sort::padded_bitonic::{
    padded_bitonic_merge, padded_bitonic_pass, padded_bitonic_sort, split,
};
use oblivious::{par_sort, sort, Max};

fn is_sorted<T: Ord>(slice: &[T]) -> bool {
    slice.windows(2).all(|w| w[0] <= w[1])
}

#[test]
fn sort_test_sort() {
    let mut a: [i32; 4] = [3, 1, 2, 4];
    osort(&mut a, 2);
    println!("{:?}", a);
    assert!(is_sorted(&a));
}

#[test]
fn test_par_sort() {
    let pool = rayon::ThreadPoolBuilder::new().num_threads(2).build().unwrap();
    let a: Vec<i64> = (0..125).rev().collect();

    let a = par_sort(a, &pool, 2);
    assert!(is_sorted(&a));
}

#[test]
fn sort_gives_the_ascending_arrangement() {
    let a: Vec<i64> = (0..125).rev().collect();
    let a = sort(a);
    assert_eq!(a, (0..125).collect::<Vec<i64>>());

    let b: Vec<i32> = vec![5, -3, 9, 0, 5, -3, 2];
    assert_eq!(sort(b), vec![-3, -3, 0, 2, 5, 5, 9]);
}

#[test]
fn sort_of_short_inputs() {
    let none: Vec<u32> = vec![];
    assert!(sort(none).is_empty());
    assert_eq!(sort(vec![4u32]), vec![4]);
    assert_eq!(sort(vec![4u32, 1]), vec![1, 4]);
    assert_eq!(sort(vec![4u32, 1, 3]), vec![1, 3, 4]);
}

#[test]
fn sort_keeps_elements_equal_to_the_padding() {
    let a: Vec<u16> = vec![u16::MAX, 3, u16::MAX, 0, 9];
    assert_eq!(sort(a), vec![0, 3, 9, u16::MAX, u16::MAX]);
    let b: Vec<i64> = vec![i64::MAX, i64::MIN, 0];
    assert_eq!(sort(b), vec![i64::MIN, 0, i64::MAX]);
}

#[test]
fn sort_orders_unsigned_values_natively() {
    let a: Vec<u64> = vec![1 << 63, 1, u64::MAX, 0, 77];
    assert_eq!(sort(a), vec![0, 1, 77, 1 << 63, u64::MAX]);
    let b: Vec<usize> = vec![usize::MAX, 2, 1];
    assert_eq!(sort(b), vec![1, 2, usize::MAX]);
}

#[test]
fn sort_of_a_sorted_sequence_returns_it() {
    let a: Vec<i32> = (-20..44).collect();
    assert_eq!(sort(a.clone()), a);
    let mut b: Vec<i32> = (0..64).collect();
    bitonic_sort(&mut b[..], true);
    assert_eq!(b, (0..64).collect::<Vec<i32>>());
    let mut c: Vec<i32> = (0..64).rev().collect();
    bitonic_sort(&mut c[..], false);
    assert_eq!(c, (0..64).rev().collect::<Vec<i32>>());
}

#[test]
fn par_sort_matches_sort_for_every_budget() {
    let pool = rayon::ThreadPoolBuilder::new().num_threads(4).build().unwrap();
    let a: Vec<i64> = (0..300).map(|x| (x * 7919) % 311 - 150).collect();
    let expected = sort(a.clone());
    assert!(is_sorted(&expected));
    for threads in [0usize, 1, 2, 3, 4, 7, 16] {
        assert_eq!(par_sort(a.clone(), &pool, threads), expected);
    }
}

#[test]
fn bitonic_sort_in_both_directions() {
    let mut a: Vec<i32> = vec![3, 7, 4, 8, 6, 2, 1, 5];
    bitonic_sort(&mut a[..], true);
    assert_eq!(a, vec![1, 2, 3, 4, 5, 6, 7, 8]);
    let mut b: Vec<i32> = vec![3, 7, 4, 8, 6, 2, 1, 5];
    bitonic_sort(&mut b[..], false);
    assert_eq!(b, vec![8, 7, 6, 5, 4, 3, 2, 1]);
    let mut one: Vec<i32> = vec![1];
    bitonic_sort(&mut one[..], true);
    assert_eq!(one, vec![1]);
    let mut none: Vec<i32> = vec![];
    bitonic_sort(&mut none[..], true);
    assert!(none.is_empty());
}

#[test]
fn bitonic_sort_of_every_zero_one_sequence_of_length_eight() {
    for mask in 0..256u32 {
        let mut a: Vec<u16> = (0..8).map(|i| ((mask >> i) & 1) as u16).collect();
        let ones = a.iter().filter(|x| **x == 1).count();
        bitonic_sort(&mut a[..], true);
        let expected: Vec<u16> = (0..8).map(|i| if i >= 8 - ones { 1 } else { 0 }).collect();
        assert_eq!(a, expected);
    }
}

#[test]
fn pass_and_merge_on_two_blocks() {
    let mut l: Vec<i32> = vec![1, 9, 3, 7];
    let mut r: Vec<i32> = vec![5, 2, 3, 8];
    bitonic_pass(&mut l[..], &mut r[..], true);
    assert_eq!(l, vec![1, 2, 3, 7]);
    assert_eq!(r, vec![5, 9, 3, 8]);

    let mut l: Vec<i32> = vec![1, 9, 3, 7];
    let mut r: Vec<i32> = vec![5, 2, 3, 8];
    bitonic_pass(&mut l[..], &mut r[..], false);
    assert_eq!(l, vec![5, 9, 3, 8]);
    assert_eq!(r, vec![1, 2, 3, 7]);

    let mut l: Vec<i32> = vec![1, 4, 6, 9];
    let mut r: Vec<i32> = vec![8, 7, 3, 2];
    bitonic_merge(&mut l[..], &mut r[..], true);
    assert_eq!(l, vec![1, 2, 3, 4]);
    assert_eq!(r, vec![6, 7, 8, 9]);
}

#[test]
fn parallel_sort_matches_serial() {
    let pool = rayon::ThreadPoolBuilder::new().num_threads(4).build().unwrap();
    for threads in [0usize, 1, 2, 3, 4, 9] {
        for cond in [true, false] {
            let mut a: Vec<i64> = (0..256).map(|x| (x * 131) % 257).collect();
            let mut b = a.clone();
            bitonic_sort(&mut a[..], cond);
            parallel_bitonic_sort(&mut b[..], cond, &pool, threads);
            assert_eq!(a, b);
        }
    }
}

#[test]
fn parallel_pass_and_merge_match_serial() {
    let pool = rayon::ThreadPoolBuilder::new().num_threads(4).build().unwrap();
    let l0: Vec<i32> = vec![1, 4, 6, 9, 12, 15, 20, 31];
    let r0: Vec<i32> = vec![30, 22, 14, 13, 8, 7, 3, 2];
    for threads in [1usize, 2, 3, 5] {
        let (mut l, mut r) = (l0.clone(), r0.clone());
        let (mut pl, mut pr) = (l0.clone(), r0.clone());
        bitonic_pass(&mut l[..], &mut r[..], true);
        parallel_bitonic_pass(&mut pl[..], &mut pr[..], true, &pool, threads);
        assert_eq!((l, r), (pl, pr));

        let (mut l, mut r) = (l0.clone(), r0.clone());
        let (mut pl, mut pr) = (l0.clone(), r0.clone());
        bitonic_merge(&mut l[..], &mut r[..], true);
        parallel_bitonic_merge(&mut pl[..], &mut pr[..], true, &pool, threads);
        assert_eq!((l.clone(), r.clone()), (pl, pr));
        assert_eq!(l, vec![1, 2, 3, 4, 6, 7, 8, 9]);
        assert_eq!(r, vec![12, 13, 14, 15, 20, 22, 30, 31]);
    }
}

#[test]
fn osort_orders_by_rank() {
    let mut a: [i64; 8] = [5, -1, 7, 0, -9, 3, 3, 2];
    osort(&mut a, 1);
    assert_eq!(a, [-9, -1, 0, 2, 3, 3, 5, 7]);
    // an unsigned value with its top bit set ranks below one without
    let mut b: [u8; 4] = [1, 200, 3, 128];
    osort(&mut b, 4);
    assert_eq!(b, [128, 200, 1, 3]);
    let mut c: [u32; 1] = [6];
    osort(&mut c, 1);
    assert_eq!(c, [6]);
    let mut d: [u32; 0] = [];
    osort(&mut d, 1);
}

#[test]
fn padded_sort_of_a_list_and_its_padding() {
    let mut list: Vec<i32> = vec![5, 3, 9, 1, 7];
    let mut pad: Vec<i32> = vec![i32::MAX; 3];
    padded_bitonic_sort(&mut list[..], &mut pad[..], true);
    assert_eq!(list, vec![1, 3, 5, 7, 9]);
    assert_eq!(pad, vec![i32::MAX; 3]);

    let mut list: Vec<i32> = vec![5, 3, 9];
    let mut pad: Vec<i32> = vec![i32::MAX; 5];
    padded_bitonic_sort(&mut list[..], &mut pad[..], true);
    assert_eq!(list, vec![3, 5, 9]);
    assert_eq!(pad, vec![i32::MAX; 5]);

    let mut list: Vec<i32> = vec![5, 3, 9, 1];
    let mut pad: Vec<i32> = vec![];
    padded_bitonic_sort(&mut list[..], &mut pad[..], false);
    assert_eq!(list, vec![9, 5, 3, 1]);

    let mut list: Vec<i32> = vec![2, 8];
    let mut pad: Vec<i32> = vec![0, 0];
    padded_bitonic_sort(&mut list[..], &mut pad[..], false);
    assert_eq!(list, vec![8, 2]);
    assert_eq!(pad, vec![0, 0]);
}

#[test]
fn split_of_a_list_and_its_padding() {
    let mut list: Vec<i32> = vec![1, 2, 3, 4, 5];
    let mut pad: Vec<i32> = vec![9, 9, 9];
    {
        let (l, r, l_pad, r_pad) = split(&mut list[..], &mut pad[..]);
        assert_eq!(l.to_vec(), vec![1, 2, 3, 4]);
        assert_eq!(r.to_vec(), vec![5]);
        assert!(l_pad.is_empty());
        assert_eq!(r_pad.to_vec(), vec![9, 9, 9]);
    }
    let mut list: Vec<i32> = vec![1, 2, 3];
    let mut pad: Vec<i32> = vec![9, 8, 7, 6, 5];
    {
        let (l, r, l_pad, r_pad) = split(&mut list[..], &mut pad[..]);
        assert_eq!(l.to_vec(), vec![1, 2, 3]);
        assert!(r.is_empty());
        assert_eq!(l_pad.to_vec(), vec![9]);
        assert_eq!(r_pad.to_vec(), vec![8, 7, 6, 5]);
    }
}

#[test]
fn padded_pass_and_merge() {
    let mut l: Vec<i32> = vec![4, 1];
    let mut l_pad: Vec<i32> = vec![];
    let mut r: Vec<i32> = vec![2];
    let mut r_pad: Vec<i32> = vec![3];
    padded_bitonic_pass(&mut l[..], &mut r[..], &mut l_pad[..], &mut r_pad[..], true);
    assert_eq!(l, vec![2, 1]);
    assert_eq!(r, vec![4]);
    assert_eq!(r_pad, vec![3]);

    let mut l: Vec<i32> = vec![1, 6];
    let mut l_pad: Vec<i32> = vec![];
    let mut r: Vec<i32> = vec![5];
    let mut r_pad: Vec<i32> = vec![2];
    padded_bitonic_merge(&mut l[..], &mut r[..], &mut l_pad[..], &mut r_pad[..], true);
    assert_eq!(l, vec![1, 2]);
    assert_eq!(r, vec![5]);
    assert_eq!(r_pad, vec![6]);
}

#[test]
fn maximum_is_the_greatest_value() {
    assert_eq!(<i16 as Max>::maximum(), i16::MAX);
    assert_eq!(<u16 as Max>::maximum(), u16::MAX);
    assert_eq!(<i32 as Max>::maximum(), i32::MAX);
    assert_eq!(<u32 as Max>::maximum(), u32::MAX);
    assert_eq!(<i64 as Max>::maximum(), i64::MAX);
    assert_eq!(<u64 as Max>::maximum(), u64::MAX);
    assert_eq!(<isize as Max>::maximum(), isize::MAX);
    assert_eq!(<usize as Max>::maximum(), usize::MAX);
}

#[test]
fn powers_of_two() {
    assert_eq!(floor_pow2(1), 1);
    assert_eq!(floor_pow2(2), 2);
    assert_eq!(floor_pow2(3), 2);
    assert_eq!(floor_pow2(9), 8);
    assert_eq!(floor_pow2(1024), 1024);
    assert_eq!(floor_pow2(usize::MAX), usize::MAX / 2 + 1);
    assert_eq!(ceil_pow2(0), 1);
    assert_eq!(ceil_pow2(1), 1);
    assert_eq!(ceil_pow2(3), 4);
    assert_eq!(ceil_pow2(125), 128);
    assert_eq!(ceil_pow2(128), 128);
    assert_eq!(ceil_pow2(usize::MAX / 2 + 1), usize::MAX / 2 + 1);
}
