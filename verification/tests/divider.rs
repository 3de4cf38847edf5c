use plansearch::Divider;

#[test]
fn divider_test() {
    let divider = Divider::new(2 * 2 * 3 * 7);

    assert_eq!(
        divider.divisors(84),
        &[2, 3, 4, 6, 7, 12, 14, 21, 28, 42, 84]
    );
    assert_eq!(divider.divisors(42), &[2, 3, 6, 7, 14, 21, 42]);
    assert_eq!(divider.divisors(28), &[2, 4, 7, 14, 28]);
    assert_eq!(divider.divisors(21), &[3, 7, 21]);
    assert_eq!(divider.divisors(14), &[2, 7, 14]);
    assert_eq!(divider.divisors(12), &[2, 3, 4, 6, 12]);
    assert_eq!(divider.divisors(7), &[7]);
    assert_eq!(divider.divisors(6), &[2, 3, 6]);
    assert_eq!(divider.divisors(4), &[2, 4]);
    assert_eq!(divider.divisors(3), &[3]);
    assert_eq!(divider.divisors(2), &[2]);
}

#[test]
fn divider_of_one_and_non_divisors() {
    let divider = Divider::new(1);
    assert_eq!(divider.divisors(1), &[] as &[u32]);

    let divider = Divider::new(10);
    assert_eq!(divider.divisors(10), &[2, 5, 10]);
    assert_eq!(divider.divisors(5), &[5]);
    // indexes that do not divide the target hold empty lists
    assert_eq!(divider.divisors(4), &[] as &[u32]);
    assert_eq!(divider.divisors(7), &[] as &[u32]);
}
