use oblivious::filter::ofilter;

fn check_filter_in_place(f: fn(&i64) -> bool) {
    let mut data: Vec<i64> = (1..101).into_iter().collect();
    let real: Vec<i64> = (1..101).into_iter().filter(|x| f(x)).collect();
    ofilter(&mut data[..], f, 2);
    assert_eq!(&data[0..real.len()], &real[..]);
}

#[test]
fn mod_test_filter() {
    check_filter_in_place(|x| x % 2 == 0);
    check_filter_in_place(|x| x % 3 == 0);
    check_filter_in_place(|x| x % 7 == 0);
}

#[test]
fn filter_in_place_keeps_every_element() {
    let mut data: Vec<u32> = (0..50).collect();
    ofilter(&mut data[..], |x| x % 4 == 3, 1);
    assert_eq!(&data[0..12], &[3, 7, 11, 15, 19, 23, 27, 31, 35, 39, 43, 47]);
    data.sort();
    assert_eq!(data, (0..50).collect::<Vec<u32>>());
}
