use linq::concate::QConcate;
use linq::enumerable::Enumerable;
use linq::queryable::{into_queryable, DoubleEndedQueryable, QSource, Queryable};
use linq::reduce::{aggregate, contains, count, element_at, first, single, to_vec};
use linq::skip::QSkip;
use linq::skip_while::QSkipWhile;
use linq::take::QTake;
use linq::take_while::QTakeWhile;
use linq::where_by::QWhere;

#[test]
fn free_functions_do_what_the_methods_do() {
    assert_eq!(to_vec(linq::where_by::where_by(into_queryable(1..10), |v| v % 3 == 0)), vec![3, 6, 9]);
    assert_eq!(to_vec(linq::select::select(into_queryable(1..4), |v| v * v)), vec![1, 4, 9]);
    assert_eq!(to_vec(linq::select::select_one(into_queryable(1..4), |v| v + 1)), vec![2, 3, 4]);
    assert_eq!(
        to_vec(linq::concate::concate(into_queryable(1..3), into_queryable(7..9))),
        vec![1, 2, 7, 8]
    );
    assert_eq!(to_vec(linq::reverse::reverse(into_queryable(1..4))), vec![3, 2, 1]);
    assert_eq!(
        to_vec(linq::distinct::distinct(into_queryable(vec![1, 1, 2, 1].into_iter()))),
        vec![1, 2]
    );
    assert_eq!(
        to_vec(linq::union::union(into_queryable(1..3), into_queryable(2..5))),
        vec![1, 2, 3, 4]
    );
    assert_eq!(
        to_vec(linq::select_many::select_many_single(into_queryable(1..3), |x| into_queryable(
            0..x
        ))),
        vec![0, 0, 1]
    );
    assert_eq!(
        to_vec(linq::select_many::select_many(
            into_queryable(1..3),
            |x| into_queryable(0..x),
            |x, y| (x, y)
        )),
        vec![(1, 0), (2, 0), (2, 1)]
    );
    assert_eq!(
        to_vec(linq::zip_from::zip_from(into_queryable(1..3), |x| into_queryable(0..*x))),
        vec![(1, 0), (2, 0), (2, 1)]
    );
    assert_eq!(
        to_vec(linq::order_by::order_by(into_queryable(vec![2, 3, 1].into_iter()), |x| *x, false)),
        vec![1, 2, 3]
    );
    assert_eq!(
        to_vec(linq::order_by::order_by(into_queryable(vec![2, 3, 1].into_iter()), |x| *x, true)),
        vec![3, 2, 1]
    );
    assert_eq!(first(&mut into_queryable(4..9)), Some(4));
    assert_eq!(element_at(&mut into_queryable(4..9), 2), Some(6));
    assert_eq!(single(&mut into_queryable(4..5)), Some(4));
    assert!(contains(&mut into_queryable(4..9), &8));
    assert_eq!(aggregate(into_queryable(1..5), 0, |a, b| a + b), 10);
    assert_eq!(count(into_queryable(4..9)), 5);
}

#[test]
fn select_two_maps_pairs() {
    let pairs = vec![(1, 'a'), (2, 'b'), (3, 'c')];
    let got = to_vec(linq::select::select_two(into_queryable(pairs.into_iter()), |k, v| {
        format!("{}{}", v, k)
    }));
    assert_eq!(got, vec!["a1".to_string(), "b2".to_string(), "c3".to_string()]);
}

#[test]
fn select_maps_in_order_and_may_change_the_type() {
    let got = into_queryable(1..4).select(|x| x.to_string()).to_vec();
    assert_eq!(got, vec!["1".to_string(), "2".to_string(), "3".to_string()]);
    let mut none = into_queryable(0..0).select(|x| x + 1);
    assert_eq!(none.next(), None);
    assert_eq!(none.next(), None);
}

#[test]
fn where_by_stays_exhausted() {
    let mut w = into_queryable(1..4).where_by(|x| *x > 5);
    assert_eq!(w.next(), None);
    assert_eq!(w.next(), None);
}

#[test]
fn first_takes_the_head() {
    assert_eq!(into_queryable(0..0).first(), None);
    assert_eq!(into_queryable(5..9).first(), Some(5));
    assert_eq!(into_queryable(5..9).where_by(|x| x % 4 == 0).first(), Some(8));
}

#[test]
fn element_at_counts_from_zero() {
    assert_eq!(into_queryable(10..13).element_at(0), Some(10));
    assert_eq!(into_queryable(10..13).element_at(2), Some(12));
    assert_eq!(into_queryable(10..13).element_at(3), None);
    assert_eq!(into_queryable(0..0).element_at(0), None);
    assert_eq!(into_queryable(10..13).element_at(usize::MAX), None);
}

#[test]
fn contains_finds_equal_elements() {
    assert!(!into_queryable(0..0).contains(&0));
    assert!(into_queryable(vec![3, 1, 3].into_iter()).contains(&3));
    assert!(!into_queryable(vec![3, 1, 3].into_iter()).contains(&2));
}

#[test]
fn reverse_yields_last_to_first() {
    assert_eq!(into_queryable(1..5).reverse().to_vec(), vec![4, 3, 2, 1]);
    assert_eq!(into_queryable(0..0).reverse().to_vec(), Vec::<i32>::new());
    assert_eq!(into_queryable(1..5).reverse().reverse().to_vec(), vec![1, 2, 3, 4]);
}

#[test]
fn reverse_of_select_where_and_concate() {
    assert_eq!(into_queryable(1..5).select(|x| x * 10).reverse().to_vec(), vec![40, 30, 20, 10]);
    assert_eq!(into_queryable(1..8).where_by(|x| x % 2 == 1).reverse().to_vec(), vec![7, 5, 3, 1]);
    assert_eq!(
        into_queryable(1..3).concate(into_queryable(7..9)).reverse().to_vec(),
        vec![8, 7, 2, 1]
    );
}

#[test]
fn source_can_be_taken_from_both_ends() {
    let mut s: QSource<i32> = QSource::from_vec(vec![1, 2, 3, 4]);
    assert_eq!(s.next(), Some(1));
    assert_eq!(s.next_back(), Some(4));
    assert_eq!(s.next_back(), Some(3));
    assert_eq!(s.next(), Some(2));
    assert_eq!(s.next(), None);
    assert_eq!(s.next_back(), None);
}

#[test]
fn from_vec_keeps_the_order() {
    assert_eq!(QSource::from_vec(vec![3, 1, 2]).to_vec(), vec![3, 1, 2]);
    assert_eq!(QSource::from_vec(Vec::<i32>::new()).to_vec(), Vec::<i32>::new());
}

#[test]
fn constructors_do_what_the_methods_do() {
    assert_eq!(QConcate::new(into_queryable(1..3), into_queryable(3..5)).to_vec(), vec![1, 2, 3, 4]);
    assert_eq!(QSkip::new(into_queryable(1..6), 2).to_vec(), vec![3, 4, 5]);
    assert_eq!(QTake::new(into_queryable(1..6), 2).to_vec(), vec![1, 2]);
    assert_eq!(QSkipWhile::new(into_queryable(1..6), |x: &i32| *x < 3).to_vec(), vec![3, 4, 5]);
    assert_eq!(QTakeWhile::new(into_queryable(1..6), |x: &i32| *x < 3).to_vec(), vec![1, 2]);
    assert_eq!(QWhere::new(into_queryable(1..6), |x: &i32| *x != 3).to_vec(), vec![1, 2, 4, 5]);
}

#[test]
fn operators_stack() {
    let got = into_queryable(1..20)
        .where_by(|x| x % 2 == 0)
        .skip(1)
        .take(5)
        .select(|x| x / 2)
        .concate(into_queryable(3..5))
        .distinct()
        .order_by_descending(|x| *x)
        .to_vec();
    assert_eq!(got, vec![6, 5, 4, 3, 2]);
}

#[test]
fn flattening_adapters_stay_exhausted() {
    let mut a = into_queryable(1..3).select_many_single(|x| into_queryable(0..x));
    assert_eq!(a.next(), Some(0));
    assert_eq!(a.next(), Some(0));
    assert_eq!(a.next(), Some(1));
    assert_eq!(a.next(), None);
    assert_eq!(a.next(), None);
    let mut b = into_queryable(1..3).select_many(|x| into_queryable(0..x), |x, y| x + y);
    assert_eq!(b.next(), Some(1));
    assert_eq!(b.next(), Some(2));
    assert_eq!(b.next(), Some(3));
    assert_eq!(b.next(), None);
    assert_eq!(b.next(), None);
    let mut c = into_queryable(1..3).zip_from(|x| into_queryable(0..*x));
    assert_eq!(c.next(), Some((1, 0)));
    assert_eq!(c.next(), Some((2, 0)));
    assert_eq!(c.next(), Some((2, 1)));
    assert_eq!(c.next(), None);
    assert_eq!(c.next(), None);
}

#[test]
fn flattening_adapters_pass_over_empty_inner_sequences() {
    let outer = vec![0, 2, 0, 1, 0];
    let got = into_queryable(outer.clone().into_iter())
        .select_many(|x| into_queryable(0..x), |x, y| (x, y))
        .to_vec();
    assert_eq!(got, vec![(2, 0), (2, 1), (1, 0)]);
    let got = into_queryable(outer.into_iter()).zip_from(|x| into_queryable(0..*x)).to_vec();
    assert_eq!(got, vec![(2, 0), (2, 1), (1, 0)]);
    let mut none = into_queryable(0..0).zip_from(|x: &i32| into_queryable(0..*x));
    assert_eq!(none.next(), None);
}

#[test]
fn set_adapters_stay_exhausted() {
    let mut d = into_queryable(vec![1, 1].into_iter()).distinct();
    assert_eq!(d.next(), Some(1));
    assert_eq!(d.next(), None);
    assert_eq!(d.next(), None);
    let mut u = into_queryable(vec![1, 1].into_iter()).union(into_queryable(vec![1, 2].into_iter()));
    assert_eq!(u.next(), Some(1));
    assert_eq!(u.next(), Some(2));
    assert_eq!(u.next(), None);
    assert_eq!(u.next(), None);
}

#[test]
fn concate_stays_exhausted() {
    let mut c = into_queryable(0..1).concate(into_queryable(5..6));
    assert_eq!(c.next(), Some(0));
    assert_eq!(c.next(), Some(5));
    assert_eq!(c.next(), None);
    assert_eq!(c.next(), None);
    let mut e = into_queryable(0..0).concate(into_queryable(0..0));
    assert_eq!(e.next(), None);
}

#[test]
fn concate_can_be_taken_from_both_ends() {
    let mut c = into_queryable(1..3).concate(into_queryable(7..9));
    assert_eq!(c.next_back(), Some(8));
    assert_eq!(c.next(), Some(1));
    assert_eq!(c.next_back(), Some(7));
    assert_eq!(c.next_back(), Some(2));
    assert_eq!(c.next(), None);
    assert_eq!(c.next_back(), None);
}

#[test]
fn ordered_producer_stays_exhausted() {
    let mut o = into_queryable(vec![2, 1].into_iter()).order_by(|x| *x);
    assert_eq!(o.next(), Some(1));
    assert_eq!(o.next(), Some(2));
    assert_eq!(o.next(), None);
    assert_eq!(o.next(), None);
}

#[test]
fn first_takes_one_element_and_no_more() {
    let mut q = into_queryable(1..5);
    assert_eq!(q.first(), Some(1));
    assert_eq!(q.to_vec(), vec![2, 3, 4]);
    let mut e = into_queryable(0..0);
    assert_eq!(e.first(), None);
    assert_eq!(e.first(), None);
}

#[test]
fn element_at_takes_the_elements_up_to_its_place() {
    let mut q = into_queryable(10..20);
    assert_eq!(q.element_at(3), Some(13));
    assert_eq!(q.element_at(0), Some(14));
    assert_eq!(q.to_vec(), vec![15, 16, 17, 18, 19]);
    let mut short = into_queryable(10..12);
    assert_eq!(short.element_at(5), None);
    assert_eq!(short.next(), None);
}

#[test]
fn single_looks_ahead_by_one() {
    let mut q = into_queryable(1..6);
    assert_eq!(q.single(), None);
    assert_eq!(q.to_vec(), vec![3, 4, 5]);
    let mut one = into_queryable(1..2);
    assert_eq!(one.single(), Some(1));
    assert_eq!(one.next(), None);
}

#[test]
fn contains_stops_at_the_first_equal_element() {
    let mut q = into_queryable(vec![4, 7, 4, 9].into_iter());
    assert!(q.contains(&4));
    assert_eq!(q.to_vec(), vec![7, 4, 9]);
    let mut r = into_queryable(vec![4, 7, 4, 9].into_iter());
    assert!(!r.contains(&5));
    assert_eq!(r.next(), None);
}
