use oblivious::contains;

#[test]
fn contains_test_contains() {
    let list: Vec<i32> = (0..100).collect();
    assert!(contains(&list, &0));
    assert!(!contains(&list, &101));
}

#[test]
fn mod_test_contains() {
    let list: Vec<i32> = (0..100).collect();
    assert!(oblivious::contains::contains(&list, &0));
    assert!(!oblivious::contains::contains(&list, &101));
}

#[test]
fn contains_at_the_end_and_in_an_empty_list() {
    let list: Vec<i32> = (0..100).collect();
    assert!(contains(&list, &99));
    assert!(!contains(&list, &100));
    assert!(!contains(&list, &-1));
    let none: Vec<i32> = vec![];
    assert!(!contains(&none, &0));
    assert!(contains(&[7, 7, 7], &7));
}
