use oblivious::ops::select_ordering::code_of;
use oblivious::{select_ordering, ObliviousSelect};
use std::cmp::Ordering;

#[test]
fn mod_test_select() {
    assert_eq!(<i8>::oselect(true, -2, 1), -2);
    assert_eq!(<i8>::oselect(false, -2, 1), 1);
    assert_eq!(<i16>::oselect(true, -2, 1), -2);
    assert_eq!(<i16>::oselect(false, -2, 1), 1);
    assert_eq!(<i32>::oselect(true, -2, 1), -2);
    assert_eq!(<i32>::oselect(false, -2, 1), 1);
    assert_eq!(<i64>::oselect(true, -2, 1), -2);
    assert_eq!(<i64>::oselect(false, -2, 1), 1);
    assert_eq!(<isize>::oselect(true, -2, 1), -2);
    assert_eq!(<isize>::oselect(false, -2, 1), 1);
    assert_eq!(<u8>::oselect(true, 2, 1), 2);
    assert_eq!(<u8>::oselect(false, 2, 1), 1);
    assert_eq!(<u16>::oselect(true, 2, 1), 2);
    assert_eq!(<u16>::oselect(false, 2, 1), 1);
    assert_eq!(<u32>::oselect(true, 2, 1), 2);
    assert_eq!(<u32>::oselect(false, 2, 1), 1);
    assert_eq!(<u64>::oselect(true, 2, 1), 2);
    assert_eq!(<u64>::oselect(false, 2, 1), 1);
    assert_eq!(<usize>::oselect(true, 2, 1), 2);
    assert_eq!(<usize>::oselect(false, 2, 1), 1);
    assert_eq!(select_ordering(true, Ordering::Equal, Ordering::Less), Ordering::Equal);
    assert_eq!(select_ordering(false, Ordering::Equal, Ordering::Less), Ordering::Less);
    assert_eq!(select_ordering(true, Ordering::Equal, Ordering::Greater), Ordering::Equal);
    assert_eq!(select_ordering(false, Ordering::Equal, Ordering::Greater), Ordering::Greater);
    assert_eq!(select_ordering(true, Ordering::Less, Ordering::Greater), Ordering::Less);
    assert_eq!(select_ordering(false, Ordering::Less, Ordering::Greater), Ordering::Greater);
}

#[test]
fn selection_between_every_pair_of_comparison_results() {
    let all = [Ordering::Less, Ordering::Equal, Ordering::Greater];
    for a in all {
        for b in all {
            assert_eq!(select_ordering(true, a, b), a);
            assert_eq!(select_ordering(false, a, b), b);
        }
    }
    assert_eq!(code_of(Ordering::Less), -1);
    assert_eq!(code_of(Ordering::Equal), 0);
    assert_eq!(code_of(Ordering::Greater), 1);
}

#[test]
fn selection_at_the_ends_of_the_range() {
    assert_eq!(<u64>::oselect(true, u64::MAX, 0), u64::MAX);
    assert_eq!(<u64>::oselect(false, u64::MAX, 0), 0);
    assert_eq!(<i8>::oselect(true, i8::MIN, i8::MAX), i8::MIN);
    assert_eq!(<i8>::oselect(false, i8::MIN, i8::MAX), i8::MAX);
    assert_eq!(<usize>::oselect(true, usize::MAX, 1), usize::MAX);
    assert_eq!(<isize>::oselect(false, 1, isize::MIN), isize::MIN);
}
