use linq::enumerable::Enumerable;
use linq::queryable::{into_queryable, Queryable};

#[derive(Clone, Debug, PartialEq)]
struct Tagged {
    key: i32,
    tag: char,
}

fn tagged(key: i32, tag: char) -> Tagged {
    Tagged { key, tag }
}

#[test]
fn where_by_then_select_is_filter_then_map() {
    let input = vec![7, -2, 0, 13, 4, 4, -9, 21];
    let mut by_hand: Vec<i32> = Vec::new();
    for x in input.iter() {
        if x % 2 == 0 {
            by_hand.push(x * 3 + 1);
        }
    }
    let got =
        into_queryable(input.into_iter()).where_by(|x| x % 2 == 0).select(|x| x * 3 + 1).to_vec();
    assert_eq!(got, by_hand);
    assert_eq!(got, vec![-5, 1, 13, 13]);
}

#[test]
fn order_by_descending_is_order_by_reversed() {
    let input =
        vec![tagged(2, 'a'), tagged(1, 'b'), tagged(2, 'c'), tagged(1, 'd'), tagged(3, 'e')];
    let ascending = into_queryable(input.clone().into_iter()).order_by(|t| t.key).to_vec();
    let descending =
        into_queryable(input.clone().into_iter()).order_by_descending(|t| t.key).to_vec();
    let mut reversed = ascending.clone();
    reversed.reverse();
    assert_eq!(descending, reversed);
    assert_eq!(
        ascending,
        vec![tagged(1, 'b'), tagged(1, 'd'), tagged(2, 'a'), tagged(2, 'c'), tagged(3, 'e')]
    );
    assert_eq!(
        descending,
        vec![tagged(3, 'e'), tagged(2, 'c'), tagged(2, 'a'), tagged(1, 'd'), tagged(1, 'b')]
    );
}

#[test]
fn order_by_keeps_equal_keys_in_input_order() {
    let input = vec![tagged(5, 'x'), tagged(5, 'y'), tagged(5, 'z')];
    let ascending = into_queryable(input.clone().into_iter()).order_by(|t| t.key).to_vec();
    assert_eq!(ascending, input);
    let descending =
        into_queryable(input.clone().into_iter()).order_by_descending(|t| t.key).to_vec();
    assert_eq!(descending, vec![tagged(5, 'z'), tagged(5, 'y'), tagged(5, 'x')]);
}

#[test]
fn order_by_of_nothing_and_of_one() {
    assert_eq!(into_queryable(0..0).order_by(|p| *p).to_vec(), Vec::<i32>::new());
    assert_eq!(into_queryable(4..5).order_by(|p| *p).to_vec(), vec![4]);
    assert_eq!(into_queryable(4..5).order_by_descending(|p| *p).to_vec(), vec![4]);
}

#[test]
fn order_by_sorts_and_rearranges() {
    let input = vec![9, -3, 7, 7, 0, 12, -3, 5];
    let got = into_queryable(input.clone().into_iter()).order_by(|p| *p).to_vec();
    assert_eq!(got, vec![-3, -3, 0, 5, 7, 7, 9, 12]);
    let mut expected = input;
    expected.sort();
    assert_eq!(got, expected);
}

#[test]
fn distinct_twice_is_distinct_once() {
    let input = vec![3, 1, 3, 2, 1, 1, 4, 2];
    let once = into_queryable(input.clone().into_iter()).distinct().to_vec();
    let twice = into_queryable(input.into_iter()).distinct().distinct().to_vec();
    assert_eq!(once, vec![3, 1, 2, 4]);
    assert_eq!(twice, once);
}

#[test]
fn distinct_of_nothing_is_nothing() {
    let mut none = into_queryable(0..0).distinct();
    assert_eq!(none.next(), None);
    assert_eq!(none.next(), None);
}

#[test]
fn union_puts_the_first_before_the_novel_of_the_second() {
    let a = vec![1, 1, 2];
    let b = vec![3, 2, 3, 0];
    let got = into_queryable(a.into_iter()).union(into_queryable(b.into_iter())).to_vec();
    assert_eq!(got, vec![1, 2, 3, 0]);
}

#[test]
fn union_is_distinct_of_concate() {
    let a = vec![4, 4, 1, 9, 1];
    let b = vec![9, 7, 4, 7, 8];
    let united =
        into_queryable(a.clone().into_iter()).union(into_queryable(b.clone().into_iter())).to_vec();
    let by_parts =
        into_queryable(a.into_iter()).concate(into_queryable(b.into_iter())).distinct().to_vec();
    assert_eq!(united, vec![4, 1, 9, 7, 8]);
    assert_eq!(united, by_parts);
}

#[test]
fn union_with_nothing() {
    let a = vec![2, 2, 5];
    assert_eq!(
        into_queryable(a.clone().into_iter()).union(into_queryable(0..0)).to_vec(),
        vec![2, 5]
    );
    assert_eq!(into_queryable(0..0).union(into_queryable(a.into_iter())).to_vec(), vec![2, 5]);
}

#[test]
fn select_many_single_flattens_in_order() {
    let got = into_queryable(1..5).select_many_single(|x| into_queryable(0..x)).to_vec();
    assert_eq!(got, vec![0, 0, 1, 0, 1, 2, 0, 1, 2, 3]);
}

#[test]
fn select_many_single_passes_over_empty_inner_sequences() {
    let got = into_queryable(vec![0, 2, 0, 0, 1, 0].into_iter())
        .select_many_single(|x| into_queryable(0..x))
        .to_vec();
    assert_eq!(got, vec![0, 1, 0]);
    let mut none = into_queryable(0..3).select_many_single(|_x| into_queryable(0..0));
    assert_eq!(none.next(), None);
    assert_eq!(none.next(), None);
}

#[test]
fn expansion_flattens_in_order() {
    let got =
        linq::expansion::expansion(into_queryable(1..5), |x| into_queryable(0..x)).to_vec();
    assert_eq!(got, vec![0, 0, 1, 0, 1, 2, 0, 1, 2, 3]);
}

#[test]
fn zip_from_pairs_outer_with_inner() {
    let got = into_queryable(1..5).zip_from(|x| into_queryable(0..*x)).to_vec();
    assert_eq!(
        got,
        vec![(1, 0), (2, 0), (2, 1), (3, 0), (3, 1), (3, 2), (4, 0), (4, 1), (4, 2), (4, 3)]
    );
}

#[test]
fn select_many_combines_outer_with_inner() {
    let got =
        into_queryable(1..4).select_many(|x| into_queryable(0..x), |x, y| x * 10 + y).to_vec();
    assert_eq!(got, vec![10, 20, 21, 30, 31, 32]);
}

#[test]
fn single_is_the_only_element() {
    assert_eq!(into_queryable(0..0).single(), None);
    assert_eq!(into_queryable(0..2).single(), None);
    assert_eq!(into_queryable(0..1).single(), Some(0));
}

#[test]
fn concate_counts_both_and_moves_on() {
    let a = vec![5, 6, 7];
    let b = vec![8, 9];
    let joined = into_queryable(a.clone().into_iter()).concate(into_queryable(b.clone().into_iter()));
    assert_eq!(joined.count(), a.len() + b.len());
    let mut walk = into_queryable(a.into_iter()).concate(into_queryable(b.into_iter()));
    assert_eq!(walk.next(), Some(5));
    assert_eq!(walk.next(), Some(6));
    assert_eq!(walk.next(), Some(7));
    assert_eq!(walk.next(), Some(8));
    assert_eq!(walk.next(), Some(9));
    assert_eq!(walk.next(), None);
    assert_eq!(walk.next(), None);
}

#[test]
fn aggregate_is_the_product() {
    assert_eq!(into_queryable(0..10).aggregate(1, |a, b| a * b), 0);
    assert_eq!(into_queryable(1..10).aggregate(1, |a, b| a * b), 362880);
    assert_eq!(into_queryable(0..0).aggregate(1, |a, b| a * b), 1);
}

#[test]
fn aggregate_folds_left_to_right() {
    let got = into_queryable(vec![1, 2, 3].into_iter()).aggregate(100, |acc, x| acc * 2 - x);
    assert_eq!(got, ((100 * 2 - 1) * 2 - 2) * 2 - 3);
}
