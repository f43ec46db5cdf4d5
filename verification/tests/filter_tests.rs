use oblivious::compact::ofilter;

fn check_filter(f: fn(&i32) -> bool) {
    let data: Vec<i32> = (1..11).into_iter().collect();
    let real: Vec<i32> = (1..11).into_iter().filter(f).collect();
    let test = ofilter(data, f, real.len(), 2);
    assert_eq!(test, real);
}

#[test]
fn compact_test_filter() {
    check_filter(|x| x % 2 == 0);
    check_filter(|x| x % 3 == 0);
}

#[test]
fn filter_of_multiples_of_seven() {
    let data: Vec<i64> = (1..101).collect();
    let out = ofilter(data, |x| x % 7 == 0, 14, 1);
    assert_eq!(out, vec![7, 14, 21, 28, 35, 42, 49, 56, 63, 70, 77, 84, 91, 98]);
}

#[test]
fn filter_with_no_match_and_with_every_match() {
    let data: Vec<i64> = (1..11).collect();
    let out = ofilter(data, |x| *x > 100, 0, 1);
    assert!(out.is_empty());
    let data: Vec<i64> = (1..6).collect();
    let out = ofilter(data, |_| true, 5, 1);
    assert_eq!(out, vec![1, 2, 3, 4, 5]);
    let data: Vec<i64> = vec![];
    let out = ofilter(data, |_| true, 0, 1);
    assert!(out.is_empty());
    let data: Vec<i32> = vec![1, 2, 3, 4];
    let out = ofilter(data, |x| x % 2 == 0, 2, 3);
    assert_eq!(out, vec![2, 4]);
}
