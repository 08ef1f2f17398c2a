use linq::average::Average;
use linq::queryable::into_queryable;

#[test]
fn average_of_nothing_is_nothing() {
    assert_eq!(i32::average(into_queryable(0..0)), None);
    assert_eq!(u8::average(into_queryable(Vec::<u8>::new().into_iter())), None);
    assert_eq!(usize::average(into_queryable(Vec::<usize>::new().into_iter())), None);
}

#[test]
fn average_is_the_sum_over_the_count() {
    assert_eq!(i32::average(into_queryable(1..5)), Some(2));
    assert_eq!(i32::average(into_queryable(vec![10, 20, 30].into_iter())), Some(20));
    assert_eq!(u64::average(into_queryable(vec![7u64].into_iter())), Some(7));
    assert_eq!(u8::average(into_queryable(vec![200u8, 55].into_iter())), Some(127));
    assert_eq!(u16::average(into_queryable(vec![1u16, 2, 3, 4].into_iter())), Some(2));
    assert_eq!(u32::average(into_queryable(vec![4u32, 6].into_iter())), Some(5));
    assert_eq!(u128::average(into_queryable(vec![9u128, 1, 2].into_iter())), Some(4));
    assert_eq!(usize::average(into_queryable(vec![9usize, 10].into_iter())), Some(9));
    assert_eq!(i8::average(into_queryable(vec![-4i8, 2].into_iter())), Some(-1));
    assert_eq!(i16::average(into_queryable(vec![-300i16, 100].into_iter())), Some(-100));
    assert_eq!(i64::average(into_queryable(vec![5i64, 6, 7].into_iter())), Some(6));
    assert_eq!(i128::average(into_queryable(vec![-5i128, -6, -7].into_iter())), Some(-6));
}

#[test]
fn average_rounds_toward_zero() {
    assert_eq!(i32::average(into_queryable(vec![3, 4, -20].into_iter())), Some(-4));
    assert_eq!(i32::average(into_queryable(vec![3, 4, 6].into_iter())), Some(4));
    assert_eq!(i32::average(into_queryable(vec![-1, 0].into_iter())), Some(0));
    assert_eq!(i64::average(into_queryable(vec![-7i64, 0].into_iter())), Some(-3));
}

#[test]
fn average_divides_by_a_count_that_the_type_cannot_hold() {
    let mut many: Vec<u8> = vec![0; 300];
    many.push(5);
    assert_eq!(u8::average(into_queryable(many.into_iter())), Some(0));
    let ones: Vec<i8> = vec![-1; 128];
    assert_eq!(i8::average(into_queryable(ones.into_iter())), Some(-1));
    let mut nearly: Vec<i8> = vec![-1; 127];
    nearly.push(0);
    assert_eq!(i8::average(into_queryable(nearly.into_iter())), Some(0));
    let ones: Vec<i8> = vec![-1; 127];
    assert_eq!(i8::average(into_queryable(ones.into_iter())), Some(-1));
}
