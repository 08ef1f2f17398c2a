use linq::enumerable::Enumerable;
use linq::queryable::{into_queryable, Queryable};

#[test]
fn m_concate_concate() {
    let mut sqr = into_queryable(1..5).concate(into_queryable(5..10));
    for x in 1..10 {
        assert_eq!(x, sqr.next().unwrap());
    }
    assert_eq!(None, sqr.next());
}

#[test]
fn skip() {
    let sqr: Vec<i32> = into_queryable(1..10).skip(4).to_vec();
    assert_eq!(5, sqr.len());
}

#[test]
fn skip_while() {
    let mut sqr = into_queryable(1..10).skip_while(|val| val <= &5);
    while let Some(x) = sqr.next() {
        assert!(x > 5);
    }
}

#[test]
fn take() {
    let sqr: Vec<i32> = into_queryable(1..10).take(4).to_vec();
    assert_eq!(4, sqr.len());
}

#[test]
fn take_while() {
    let mut sqr = into_queryable(1..10).take_while(|val| val <= &5);
    while let Some(x) = sqr.next() {
        assert!(x <= 5);
    }
}

#[test]
fn m_where_where_by() {
    let mut sqr = into_queryable(1..10).where_by(|val| val <= &5);
    while let Some(x) = sqr.next() {
        assert!(x <= 5);
    }
}

#[test]
fn skip_yields_the_rest_in_order() {
    assert_eq!(into_queryable(1..10).skip(4).to_vec(), vec![5, 6, 7, 8, 9]);
    assert_eq!(into_queryable(1..10).skip(0).to_vec(), (1..10).collect::<Vec<i32>>());
    assert_eq!(into_queryable(1..10).skip(9).to_vec(), Vec::<i32>::new());
    assert_eq!(into_queryable(1..10).skip(20).to_vec(), Vec::<i32>::new());
}

#[test]
fn skip_stays_exhausted() {
    let mut sqr = into_queryable(1..3).skip(5);
    assert_eq!(sqr.next(), None);
    assert_eq!(sqr.next(), None);
}

#[test]
fn take_yields_the_head_in_order() {
    assert_eq!(into_queryable(1..10).take(4).to_vec(), vec![1, 2, 3, 4]);
    assert_eq!(into_queryable(1..10).take(0).to_vec(), Vec::<i32>::new());
    assert_eq!(into_queryable(1..10).take(9).to_vec(), (1..10).collect::<Vec<i32>>());
    assert_eq!(into_queryable(1..10).take(20).to_vec(), (1..10).collect::<Vec<i32>>());
}

#[test]
fn take_while_stops_at_the_first_failure() {
    let v = into_queryable(vec![1, 2, 9, 3, 4].into_iter()).take_while(|val| val <= &5).to_vec();
    assert_eq!(v, vec![1, 2]);
    let mut sqr = into_queryable(vec![1, 9, 2].into_iter()).take_while(|val| val <= &5);
    assert_eq!(sqr.next(), Some(1));
    assert_eq!(sqr.next(), None);
    assert_eq!(sqr.next(), None);
}

#[test]
fn skip_while_keeps_all_after_the_first_failure() {
    let v = into_queryable(vec![1, 2, 9, 3, 4].into_iter()).skip_while(|val| val <= &5).to_vec();
    assert_eq!(v, vec![9, 3, 4]);
    let none = into_queryable(vec![1, 2, 3].into_iter()).skip_while(|val| val <= &5).to_vec();
    assert_eq!(none, Vec::<i32>::new());
    let all = into_queryable(vec![7, 1, 2].into_iter()).skip_while(|val| val <= &5).to_vec();
    assert_eq!(all, vec![7, 1, 2]);
}

#[test]
fn source_yields_front_to_back_and_stays_exhausted() {
    let mut s = into_queryable(vec![10, 20, 30].into_iter());
    assert_eq!(s.next(), Some(10));
    assert_eq!(s.next(), Some(20));
    assert_eq!(s.next(), Some(30));
    assert_eq!(s.next(), None);
    assert_eq!(s.next(), None);
}

#[test]
fn count_is_the_number_of_elements() {
    assert_eq!(into_queryable(0..0).count(), 0);
    assert_eq!(into_queryable(0..7).count(), 7);
    assert_eq!(into_queryable(1..10).where_by(|v| v % 2 == 0).count(), 4);
}
