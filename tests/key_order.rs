use containers::key_order::TotalOrder;
use std::cmp::Ordering;

#[test]
fn compare_signed_keys() {
    assert_eq!((-5i32).compare(&3), Ordering::Less);
    assert_eq!(3i32.compare(&3), Ordering::Equal);
    assert_eq!(4i32.compare(&-3), Ordering::Greater);
    assert_eq!(i64::MIN.compare(&i64::MAX), Ordering::Less);
    assert_eq!(0i64.compare(&0), Ordering::Equal);
    assert_eq!(i64::MAX.compare(&-1), Ordering::Greater);
}

#[test]
fn compare_unsigned_keys() {
    assert_eq!(1u32.compare(&2), Ordering::Less);
    assert_eq!(u32::MAX.compare(&u32::MAX), Ordering::Equal);
    assert_eq!(9u64.compare(&8), Ordering::Greater);
    assert_eq!(0u64.compare(&u64::MAX), Ordering::Less);
    assert_eq!(5usize.compare(&5), Ordering::Equal);
    assert_eq!(6usize.compare(&2), Ordering::Greater);
}
