use linq::enumerable::Enumerable;
use linq::queryable::into_queryable;

#[test]
fn iter_expr_select() {
    let x = 1..100;
    let y: Vec<i32> = x.clone().map(|p| p * 2).collect();
    let e: Vec<i32> = into_queryable(x.clone()).select(|p| p * 2).to_vec();
    assert_eq!(e, y);
}

#[test]
fn iter_expr_select_many() {
    let x = 1..5;
    let y = vec![0, 0, 1, 0, 1, 2, 0, 1, 2, 3];
    let e: Vec<i32> = into_queryable(x.clone()).select_many_single(|p| into_queryable(0..p)).select(|t| t).to_vec();
    assert_eq!(e, y);
}

#[test]
fn select_many_nest() {
    let x = 1..5;
    let y = vec![0, 1, 0, 1, 2, 3];
    let e: Vec<i32> = into_queryable(x.clone())
        .where_by(|y| true && y % 2 == 0)
        .select(|y| y)
        .select_many_single(|p| into_queryable(0..p))
        .select(|t| t)
        .to_vec();
    assert_eq!(e, y);
}

#[test]
fn iter_expr_select_many_zip() {
    let x = 1..5;
    let y = vec![
        (1, 0),
        (2, 0),
        (2, 1),
        (3, 0),
        (3, 1),
        (3, 2),
        (4, 0),
        (4, 1),
        (4, 2),
        (4, 3),
    ];
    let e: Vec<_> = into_queryable(x.clone()).select_many(|p| into_queryable(0..p), |p, t| (p, t)).to_vec();
    assert_eq!(e, y);
}

#[test]
fn iter_expr_where_by() {
    let x = 1..100;
    let y: Vec<i32> = x.clone().filter(|p| p <= &5).map(|p| p * 2).collect();
    let e: Vec<i32> = into_queryable(x.clone()).where_by(|p| true && p <= &5).select(|p| p * 2).to_vec();
    assert_eq!(e, y);
}

#[test]
fn iter_expr_order_by_descending() {
    let x = 1..100;
    let mut y: Vec<i32> = x.clone().collect();
    y.sort_by_key(|t| -t);
    let y: Vec<i32> = y.into_iter().rev().map(|t| t * 2).collect();
    let e: Vec<i32> = into_queryable(x.clone()).order_by_descending(|p| -p).select(|p| p * 2).to_vec();
    assert_eq!(e, y);
}

#[test]
fn iter_expr_order_by() {
    let x = 1..100;
    let mut y: Vec<i32> = x.clone().collect();
    y.sort_by_key(|t| -t);
    let y: Vec<i32> = y.into_iter().map(|t| t * 2).collect();
    let e: Vec<i32> = into_queryable(x.clone()).order_by(|p| -p).select(|p| p * 2).to_vec();
    assert_eq!(e, y);
}

#[test]
fn iter_expr_where_order() {
    let x = 1..100;
    let mut y: Vec<i32> = x.clone().filter(|p| p <= &5).collect();
    y.sort_by_key(|t| -t);
    let y: Vec<i32> = y.into_iter().map(|t| t * 2).collect();
    let e: Vec<i32> = into_queryable(x.clone())
        .where_by(|p| true && p <= &5)
        .order_by(|p| -p)
        .select(|p| p * 2)
        .to_vec();
    assert_eq!(e, y);
}

#[test]
fn distinct() {
    let x = [1, 2, 4, 2, 5, 6];
    let y: Vec<i32> = into_queryable(x.iter())
        .distinct()
        .to_vec()
        .into_iter()
        .cloned()
        .collect();
    let e: Vec<i32> = into_queryable(x.iter())
        .select(|p| p)
        .distinct()
        .to_vec()
        .into_iter()
        .cloned()
        .collect();
    assert_eq!(e, y);
    assert_eq!(e, vec![1, 2, 4, 5, 6]);
}

#[test]
fn try_linq() {
    let x = 1..100;
    let y: Vec<i32> = x.clone().map(|p| p * 2).collect();
    let e: Vec<i32> = into_queryable(x.clone()).select(|p| p * 2).to_vec();
    assert_eq!(e, y);
}
