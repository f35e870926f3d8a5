use toast::count::count;

#[test]
fn count_zero() {
    assert_eq!(count(0, "cow"), "0 cows");
}

#[test]
fn count_one() {
    assert_eq!(count(1, "cow"), "1 cow");
}

#[test]
fn count_two() {
    assert_eq!(count(2, "cow"), "2 cows");
}

#[test]
fn count_large() {
    assert_eq!(count(1234567, "task"), "1234567 tasks");
}
