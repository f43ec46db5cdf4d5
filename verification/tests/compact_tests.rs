use oblivious::compact;
use oblivious::compact::or_compact::{
    count_tags, exchange_blocks, or_compact, or_off_compact, parallel_or_compact,
    parallel_or_off_compact,
};

fn check_compact(modulus: i64, pool: &rayon::ThreadPool) {
    let mut data: Vec<i64> = (1..101).into_iter().collect();
    let real: Vec<i64> = (1..101).into_iter().filter(|x| x % modulus == 0).collect();

    let bits: Vec<usize> = data.iter().map(|x| (x % modulus == 0).try_into().unwrap()).collect();
    compact(&mut data[..], &bits[..], pool, 2);
    assert_eq!(&data[0..real.len()], &real[..]);
}

#[test]
fn test_compact() {
    let pool = rayon::ThreadPoolBuilder::new().num_threads(2).build().unwrap();
    check_compact(2, &pool);
    check_compact(3, &pool);
    check_compact(7, &pool);
}

#[test]
fn compaction_keeps_tagged_elements_in_order() {
    let mut data: Vec<i64> = vec![63, 1, 42, 72, 2, 3, 67, 4, 5];
    let bits = vec![false, true, false, false, true, true, false, true, true];
    or_compact(&mut data[..], &bits[..]);
    assert_eq!(&data[0..5], &[1, 2, 3, 4, 5]);
    let mut rest: Vec<i64> = data[5..].to_vec();
    rest.sort();
    assert_eq!(rest, vec![42, 63, 67, 72]);
}

#[test]
fn compaction_of_four_elements_is_exact() {
    let mut data: Vec<i32> = vec![10, 20, 30, 40];
    let bits = vec![false, false, true, false];
    or_compact(&mut data[..], &bits[..]);
    assert_eq!(data, vec![30, 40, 10, 20]);
}

#[test]
fn compaction_of_short_inputs() {
    let mut none: Vec<i32> = vec![];
    or_compact(&mut none[..], &[]);
    assert!(none.is_empty());

    let mut one: Vec<i32> = vec![9];
    or_compact(&mut one[..], &[false]);
    assert_eq!(one, vec![9]);
    or_compact(&mut one[..], &[true]);
    assert_eq!(one, vec![9]);

    let mut two: Vec<i32> = vec![1, 2];
    or_compact(&mut two[..], &[false, true]);
    assert_eq!(two, vec![2, 1]);
    let mut two: Vec<i32> = vec![1, 2];
    or_compact(&mut two[..], &[true, false]);
    assert_eq!(two, vec![1, 2]);
    let mut two: Vec<i32> = vec![1, 2];
    or_compact(&mut two[..], &[true, true]);
    assert_eq!(two, vec![1, 2]);
}

#[test]
fn compaction_with_all_or_no_tags_set() {
    let mut data: Vec<u32> = (0..37).collect();
    let bits = vec![true; 37];
    or_compact(&mut data[..], &bits[..]);
    assert_eq!(data, (0..37).collect::<Vec<u32>>());

    let mut data: Vec<u32> = (0..37).collect();
    let bits = vec![false; 37];
    or_compact(&mut data[..], &bits[..]);
    let mut sorted = data.clone();
    sorted.sort();
    assert_eq!(sorted, (0..37).collect::<Vec<u32>>());
}

#[test]
fn compaction_is_stable_for_every_tagging_of_small_inputs() {
    for n in 0..11usize {
        for mask in 0..(1u32 << n) {
            let mut data: Vec<u16> = (0..n as u16).collect();
            let bits: Vec<bool> = (0..n).map(|i| mask & (1 << i) != 0).collect();
            let expected: Vec<u16> = (0..n as u16).filter(|i| mask & (1 << i) != 0).collect();
            or_compact(&mut data[..], &bits[..]);
            assert_eq!(&data[0..expected.len()], &expected[..]);
            let mut all = data.clone();
            all.sort();
            assert_eq!(all, (0..n as u16).collect::<Vec<u16>>());
        }
    }
}

#[test]
fn rotated_compaction_places_kept_elements_from_the_offset() {
    for offset in 0..8usize {
        let mut data: Vec<i32> = vec![0, 1, 2, 3, 4, 5, 6, 7];
        let bits = vec![false, true, true, false, false, true, false, false];
        or_off_compact(&mut data[..], &bits[..], offset);
        assert_eq!(data[offset % 8], 1);
        assert_eq!(data[(offset + 1) % 8], 2);
        assert_eq!(data[(offset + 2) % 8], 5);
    }
}

#[test]
fn parallel_compaction_matches_serial() {
    let pool = rayon::ThreadPoolBuilder::new().num_threads(4).build().unwrap();
    for threads in [0usize, 1, 2, 3, 4, 8] {
        for n in [0usize, 1, 2, 3, 5, 64, 100, 1000] {
            let mut a: Vec<i64> = (0..n as i64).collect();
            let mut b = a.clone();
            let bits: Vec<bool> = a.iter().map(|x| x % 3 == 1).collect();
            or_compact(&mut a[..], &bits[..]);
            parallel_or_compact(&mut b[..], &bits[..], &pool, threads);
            assert_eq!(a, b);
        }
    }
}

#[test]
fn parallel_rotated_compaction_matches_serial() {
    let pool = rayon::ThreadPoolBuilder::new().num_threads(4).build().unwrap();
    for offset in [0usize, 1, 5, 63] {
        let mut a: Vec<i64> = (0..64).collect();
        let mut b = a.clone();
        let bits: Vec<bool> = a.iter().map(|x| x % 5 < 2).collect();
        or_off_compact(&mut a[..], &bits[..], offset);
        parallel_or_off_compact(&mut b[..], &bits[..], offset, &pool, 4);
        assert_eq!(a, b);
    }
}

#[test]
fn compact_takes_nonzero_tags_as_set() {
    let pool = rayon::ThreadPoolBuilder::new().num_threads(2).build().unwrap();
    let mut data: Vec<u8> = vec![10, 11, 12, 13, 14];
    let bits: Vec<usize> = vec![0, 1, 0, 1, 1];
    compact(&mut data[..], &bits[..], &pool, 3);
    assert_eq!(&data[0..3], &[11, 13, 14]);
}

#[test]
fn count_of_tags_in_a_prefix() {
    let bits = vec![true, false, true, true, false];
    assert_eq!(count_tags(&bits, 0), 0);
    assert_eq!(count_tags(&bits, 1), 1);
    assert_eq!(count_tags(&bits, 3), 2);
    assert_eq!(count_tags(&bits, 5), 3);
}

#[test]
fn exchange_of_blocks_at_an_edge() {
    let mut l: Vec<i32> = vec![1, 2, 3, 4];
    let mut r: Vec<i32> = vec![5, 6, 7, 8];
    exchange_blocks(&mut l[..], &mut r[..], false, 2);
    assert_eq!(l, vec![1, 2, 7, 8]);
    assert_eq!(r, vec![5, 6, 3, 4]);
    exchange_blocks(&mut l[..], &mut r[..], true, 2);
    assert_eq!(l, vec![5, 6, 7, 8]);
    assert_eq!(r, vec![1, 2, 3, 4]);
}
