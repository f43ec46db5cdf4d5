use oblivious::shuffle;
use oblivious::shuffle::or_shuffle::{
    draw_plan, judge, mark_from_draws, mark_half, or_shuffle, parallel_or_shuffle,
    parallel_shuffle_by, reduce, shuffle_by, uniform_below, Attempt, Plan, ATTEMPTS,
};
use oblivious::shuffle::par_shuffle;

#[test]
fn test_shuffle() {
    let mut data: Vec<i64> = (0..10).into_iter().collect();
    let done = shuffle(&mut data);
    println!("{:?}", data);

    assert!(true);
    assert!(done.is_ok());
}

#[test]
fn shuffle_gives_a_permutation() {
    for n in [0usize, 1, 2, 3, 7, 16, 100, 257] {
        let mut data: Vec<u32> = (0..n as u32).collect();
        assert_eq!(shuffle(&mut data), Ok(()));
        data.sort();
        assert_eq!(data, (0..n as u32).collect::<Vec<u32>>());

        let mut data: Vec<u32> = (0..n as u32).collect();
        assert_eq!(or_shuffle(&mut data[..]), Ok(()));
        data.sort();
        assert_eq!(data, (0..n as u32).collect::<Vec<u32>>());
    }
}

#[test]
fn shuffle_leaves_short_inputs() {
    let mut none: Vec<i32> = vec![];
    assert_eq!(shuffle(&mut none), Ok(()));
    let mut one: Vec<i32> = vec![5];
    assert_eq!(shuffle(&mut one), Ok(()));
    assert_eq!(one, vec![5]);
}

#[test]
fn shuffle_moves_elements() {
    // The chance that 64 elements stay in place in each of 4 shuffles is nil.
    let mut moved = false;
    for _ in 0..4 {
        let mut data: Vec<u32> = (0..64).collect();
        assert_eq!(shuffle(&mut data), Ok(()));
        moved = moved || data != (0..64).collect::<Vec<u32>>();
    }
    assert!(moved);
}

#[test]
fn parallel_shuffle_gives_a_permutation() {
    let pool = rayon::ThreadPoolBuilder::new().num_threads(4).build().unwrap();
    for threads in [0usize, 1, 2, 4, 5] {
        for n in [0usize, 1, 2, 3, 33, 200] {
            let mut data: Vec<i64> = (0..n as i64).collect();
            assert_eq!(par_shuffle(&mut data, &pool, threads), Ok(()));
            data.sort();
            assert_eq!(data, (0..n as i64).collect::<Vec<i64>>());

            let mut data: Vec<i64> = (0..n as i64).collect();
            assert_eq!(parallel_or_shuffle(&mut data[..], &pool, threads), Ok(()));
            data.sort();
            assert_eq!(data, (0..n as i64).collect::<Vec<i64>>());
        }
    }
}

#[test]
fn mark_half_marks_half_rounded_up() {
    for n in [0usize, 1, 2, 3, 10, 11, 100] {
        let bits = mark_half(n).unwrap();
        assert_eq!(bits.len(), n);
        assert_eq!(bits.iter().filter(|b| **b).count(), (n + 1) / 2);
    }
}

#[test]
fn marks_from_given_draws() {
    // quota 2 of 4: 0 % 4 < 2 marks, 5 % 3 = 2 is not below 1, 1 % 2 = 1 is
    // not below 1, 9 % 1 = 0 < 1 marks
    assert_eq!(mark_from_draws(&[0, 5, 1, 9]), vec![true, false, false, true]);
    assert_eq!(mark_from_draws(&[0, 0, 0, 0]), vec![true, true, false, false]);
    assert_eq!(mark_from_draws(&[3, 2, 1, 7]), vec![false, false, true, true]);
    // quota 3 of 5
    assert_eq!(mark_from_draws(&[4, 3, 2, 1, 0]), vec![false, false, true, true, true]);
    assert_eq!(mark_from_draws(&[6, 1, 1, 1, 1]), vec![true, true, false, false, true]);
    assert_eq!(mark_from_draws(&[8]), vec![true]);
    assert!(mark_from_draws(&[]).is_empty());
}

#[test]
fn draws_are_reduced_or_rejected() {
    assert_eq!(reduce(5, 3), Some(2));
    assert_eq!(reduce(0, 3), Some(0));
    assert_eq!(reduce(17, 1), Some(0));
    assert_eq!(reduce(u64::MAX, 1), Some(0));
    // 64 bits hold one value more than a multiple of three: the last is rejected
    assert_eq!(reduce(u64::MAX, 3), None);
    assert_eq!(reduce(u64::MAX - 1, 3), Some(2));
    // a power of two divides the range: nothing is rejected
    assert_eq!(reduce(u64::MAX, 4), Some(3));
    assert_eq!(reduce(u64::MAX, 1 << 20), Some((1 << 20) - 1));
    // 64 bits hold six values more than a multiple of ten
    assert_eq!(reduce(u64::MAX - 5, 10), None);
    assert_eq!(reduce(u64::MAX - 6, 10), Some(9));
}

#[test]
fn uniform_values_lie_below_the_bound() {
    assert_eq!(ATTEMPTS, 128);
    for bound in [1usize, 2, 3, 10, 1000, usize::MAX] {
        for _ in 0..50 {
            let v = uniform_below(bound).unwrap();
            assert!(v < bound);
        }
    }
    assert_eq!(uniform_below(1), Ok(0));
}

#[test]
fn shuffle_of_two_elements_exchanges_them_or_not() {
    let mut kept = false;
    let mut exchanged = false;
    for _ in 0..200 {
        let mut data: Vec<i32> = vec![1, 2];
        assert_eq!(shuffle(&mut data), Ok(()));
        assert!(data == vec![1, 2] || data == vec![2, 1]);
        kept = kept || data == vec![1, 2];
        exchanged = exchanged || data == vec![2, 1];
    }
    // The chance that 200 random bits are all equal is nil.
    assert!(kept && exchanged);
}

fn orders_of_three(shuffle_three: &dyn Fn(&mut Vec<u8>)) -> Vec<Vec<u8>> {
    let mut seen: Vec<Vec<u8>> = vec![];
    for _ in 0..600 {
        let mut data: Vec<u8> = vec![10, 20, 30];
        shuffle_three(&mut data);
        if !seen.contains(&data) {
            seen.push(data);
        }
    }
    seen.sort();
    seen
}

#[test]
fn shuffle_of_three_elements_reaches_each_of_the_six_orders() {
    let all: Vec<Vec<u8>> = vec![
        vec![10, 20, 30],
        vec![10, 30, 20],
        vec![20, 10, 30],
        vec![20, 30, 10],
        vec![30, 10, 20],
        vec![30, 20, 10],
    ];
    // The chance that one of six orders is missed in 600 shuffles is nil.
    assert_eq!(orders_of_three(&|d| assert_eq!(shuffle(d), Ok(()))), all);
    assert_eq!(orders_of_three(&|d| assert_eq!(or_shuffle(&mut d[..]), Ok(()))), all);
    let pool = rayon::ThreadPoolBuilder::new().num_threads(2).build().unwrap();
    assert_eq!(orders_of_three(&|d| assert_eq!(par_shuffle(d, &pool, 4), Ok(()))), all);
}

#[test]
fn shuffle_puts_every_element_in_front() {
    for n in [3usize, 5, 7] {
        let mut in_front = vec![false; n];
        for _ in 0..2000 {
            let mut data: Vec<usize> = (0..n).collect();
            assert_eq!(shuffle(&mut data), Ok(()));
            in_front[data[0]] = true;
        }
        assert!(in_front.iter().all(|seen| *seen));
    }
}

#[test]
fn a_draw_is_taken_or_followed_by_another_or_the_last() {
    assert_eq!(judge(0, 5, 3), Attempt::Taken(2));
    assert_eq!(judge(127, 5, 3), Attempt::Taken(2));
    assert_eq!(judge(0, u64::MAX, 3), Attempt::Retry);
    assert_eq!(judge(126, u64::MAX, 3), Attempt::Retry);
    assert_eq!(judge(127, u64::MAX, 3), Attempt::GiveUp);
    assert_eq!(judge(ATTEMPTS - 1, u64::MAX - 5, 10), Attempt::GiveUp);
    assert_eq!(judge(ATTEMPTS - 2, u64::MAX - 5, 10), Attempt::Retry);
    assert_eq!(judge(ATTEMPTS - 1, u64::MAX, 4), Attempt::Taken(3));
}

fn plan_of_three(marks: [bool; 3], flip: bool) -> Plan {
    Plan::Halve(marks.to_vec(), Box::new(Plan::Flip(flip)), Box::new(Plan::Still))
}

#[test]
fn each_order_of_three_elements_comes_from_a_plan() {
    let cases: Vec<([bool; 3], bool, Vec<u8>)> = vec![
        ([true, true, false], false, vec![10, 20, 30]),
        ([true, true, false], true, vec![20, 10, 30]),
        ([true, false, true], false, vec![10, 30, 20]),
        ([true, false, true], true, vec![30, 10, 20]),
        ([false, true, true], false, vec![20, 30, 10]),
        ([false, true, true], true, vec![30, 20, 10]),
    ];
    let pool = rayon::ThreadPoolBuilder::new().num_threads(2).build().unwrap();
    for (marks, flip, expected) in cases {
        let plan = plan_of_three(marks, flip);
        let mut data: Vec<u8> = vec![10, 20, 30];
        shuffle_by(&mut data[..], &plan);
        assert_eq!(data, expected);
        let mut data: Vec<u8> = vec![10, 20, 30];
        parallel_shuffle_by(&mut data[..], &plan, &pool, 4);
        assert_eq!(data, expected);
    }
}

#[test]
fn shuffle_by_plans_of_short_inputs() {
    let mut none: Vec<i32> = vec![];
    shuffle_by(&mut none[..], &Plan::Still);
    assert!(none.is_empty());
    let mut one: Vec<i32> = vec![4];
    shuffle_by(&mut one[..], &Plan::Still);
    assert_eq!(one, vec![4]);
    let mut two: Vec<i32> = vec![4, 5];
    shuffle_by(&mut two[..], &Plan::Flip(false));
    assert_eq!(two, vec![4, 5]);
    shuffle_by(&mut two[..], &Plan::Flip(true));
    assert_eq!(two, vec![5, 4]);
}

#[test]
fn shuffle_by_a_plan_of_five_elements() {
    // the marked three go to the front in their order, then are shuffled by
    // their own plan; the other two are exchanged
    let front = Plan::Halve(vec![false, true, true], Box::new(Plan::Flip(true)), Box::new(Plan::Still));
    let plan = Plan::Halve(
        vec![true, false, false, true, true],
        Box::new(front),
        Box::new(Plan::Flip(false)),
    );
    let mut data: Vec<u8> = vec![1, 2, 3, 4, 5];
    shuffle_by(&mut data[..], &plan);
    assert_eq!(&data[0..3], &[5, 4, 1]);
    let mut rest = data[3..].to_vec();
    rest.sort();
    assert_eq!(rest, vec![2, 3]);
    let pool = rayon::ThreadPoolBuilder::new().num_threads(3).build().unwrap();
    for threads in [0usize, 1, 2, 5] {
        let mut again: Vec<u8> = vec![1, 2, 3, 4, 5];
        parallel_shuffle_by(&mut again[..], &plan, &pool, threads);
        assert_eq!(again, data);
    }
}

fn plan_fits(plan: &Plan, n: usize) -> bool {
    match plan {
        Plan::Still => n < 2,
        Plan::Flip(_) => n == 2,
        Plan::Halve(bits, l, r) => {
            n > 2
                && bits.len() == n
                && bits.iter().filter(|b| **b).count() == (n + 1) / 2
                && plan_fits(l, (n + 1) / 2)
                && plan_fits(r, n / 2)
        }
    }
}

#[test]
fn drawn_plans_fit_their_length() {
    for n in [0usize, 1, 2, 3, 4, 5, 9, 64, 101] {
        let plan = draw_plan(n).unwrap();
        assert!(plan_fits(&plan, n));
        let mut data: Vec<usize> = (0..n).collect();
        shuffle_by(&mut data[..], &plan);
        data.sort();
        assert_eq!(data, (0..n).collect::<Vec<usize>>());
    }
}
