//! The mean of a sequence of numbers.

use crate::queryable::Queryable;
use vstd::prelude::*;

verus! {

/// The sum of a sequence of integers.
pub open spec fn sum(s: Seq<int>) -> int {
    s.fold_left(0, |acc: int, x: int| acc + x)
}

/// `total` divided by `n`, rounded toward zero.
pub open spec fn quotient(total: int, n: int) -> int {
    if total >= 0 {
        total / n
    } else {
        -((-total) / n)
    }
}

/// The arithmetic mean of a sequence of integers, rounded toward zero.
pub open spec fn mean(s: Seq<int>) -> int {
    quotient(sum(s), s.len() as int)
}

/// The sum of one element more is the sum so far plus that element.
pub proof fn lemma_sum_step(s: Seq<int>, n: int)
    requires
        0 <= n < s.len(),
    ensures
        sum(s.take(n + 1)) == sum(s.take(n)) + s[n],
{
    assert(s.take(n + 1).drop_last() =~= s.take(n));
}

/// A total that is smaller in size than the count has the mean zero.
pub proof fn lemma_quotient_zero(total: int, n: int)
    requires
        -n < total < n,
    ensures
        quotient(total, n) == 0,
{
    assert(quotient(total, n) == 0) by (nonlinear_arith)
        requires
            -n < total < n,
    ;
}

/// A negative total of the size of the count has the mean minus one.
pub proof fn lemma_quotient_minus_one(total: int, n: int)
    requires
        total < 0,
        n == -total,
    ensures
        quotient(total, n) == -1,
{
    assert(quotient(total, n) == -1) by (nonlinear_arith)
        requires
            total < 0,
            n == -total,
    ;
}

/// A number type that can hold the mean of a sequence of `A`.
///
/// The elements are summed up in the result type, so every running sum has
/// to fit it. The mean of no elements does not exist: `average` returns
/// nothing then. The mean is rounded toward zero.
pub trait Average<A = Self>: Sized {
    /// The integer that an element stands for.
    spec fn number(x: A) -> int;

    /// The number of this type that stands for `n`.
    spec fn of_number(n: int) -> Self;

    /// Whether this type can hold `n`.
    spec fn fits(n: int) -> bool;

    /// The integers that the elements of `s` stand for.
    open spec fn numbers(s: Seq<A>) -> Seq<int> {
        s.map_values(|x: A| Self::number(x))
    }

    /// Whether this type can hold the sum of every leading part of `s`.
    open spec fn sums_fit(s: Seq<A>) -> bool {
        forall|k: int| 0 <= k <= s.len() ==> Self::fits(sum(#[trigger] Self::numbers(s).take(k)))
    }

    fn average<I: Queryable<Item = A>>(iter: I) -> (result: Option<Self>)
        requires
            iter.inv(),
            iter.remaining().len() <= usize::MAX,
            Self::sums_fit(iter.remaining()),
        ensures
            result == if iter.remaining().len() == 0 {
                None
            } else {
                Some(Self::of_number(mean(Self::numbers(iter.remaining()))))
            },
    ;
}

impl Average for u8 {
    open spec fn number(x: u8) -> int {
        x as int
    }

    open spec fn of_number(n: int) -> u8 {
        n as u8
    }

    open spec fn fits(n: int) -> bool {
        u8::MIN <= n <= u8::MAX
    }

    fn average<I: Queryable<Item = u8>>(iter: I) -> (result: Option<u8>) {
        let mut source = iter;
        let ghost items = source.remaining();
        let ghost all = Self::numbers(items);
        let mut n: usize = 0;
        let mut total: u8 = 0;
        assert(all.take(0) =~= Seq::<int>::empty());
        loop
            invariant
                source.inv(),
                items == iter.remaining(),
                all == Self::numbers(items),
                Self::sums_fit(items),
                n <= items.len() <= usize::MAX,
                source.remaining() == items.skip(n as int),
                total == sum(all.take(n as int)),
            decreases source.remaining().len(),
        {
            match source.next() {
                Some(x) => {
                    proof {
                        assert(items.skip(n as int).drop_first() =~= items.skip(n + 1));
                        assert(x == items[n as int]);
                        lemma_sum_step(all, n as int);
                        assert(Self::fits(sum(all.take(n + 1))));
                    }
                    total = total + x;
                    n = n + 1;
                },
                None => {
                    assert(all.take(n as int) =~= all);
                    if n == 0 {
                        return None;
                    } else if (n as u128) <= (u8::MAX as u128) {
                        return Some(total / (n as u8));
                    } else {
                        proof {
                            lemma_quotient_zero(total as int, n as int);
                        }
                        return Some(0);
                    }
                },
            }
        }
    }
}

impl Average for u16 {
    open spec fn number(x: u16) -> int {
        x as int
    }

    open spec fn of_number(n: int) -> u16 {
        n as u16
    }

    open spec fn fits(n: int) -> bool {
        u16::MIN <= n <= u16::MAX
    }

    fn average<I: Queryable<Item = u16>>(iter: I) -> (result: Option<u16>) {
        let mut source = iter;
        let ghost items = source.remaining();
        let ghost all = Self::numbers(items);
        let mut n: usize = 0;
        let mut total: u16 = 0;
        assert(all.take(0) =~= Seq::<int>::empty());
        loop
            invariant
                source.inv(),
                items == iter.remaining(),
                all == Self::numbers(items),
                Self::sums_fit(items),
                n <= items.len() <= usize::MAX,
                source.remaining() == items.skip(n as int),
                total == sum(all.take(n as int)),
            decreases source.remaining().len(),
        {
            match source.next() {
                Some(x) => {
                    proof {
                        assert(items.skip(n as int).drop_first() =~= items.skip(n + 1));
                        assert(x == items[n as int]);
                        lemma_sum_step(all, n as int);
                        assert(Self::fits(sum(all.take(n + 1))));
                    }
                    total = total + x;
                    n = n + 1;
                },
                None => {
                    assert(all.take(n as int) =~= all);
                    if n == 0 {
                        return None;
                    } else if (n as u128) <= (u16::MAX as u128) {
                        return Some(total / (n as u16));
                    } else {
                        proof {
                            lemma_quotient_zero(total as int, n as int);
                        }
                        return Some(0);
                    }
                },
            }
        }
    }
}

impl Average for u32 {
    open spec fn number(x: u32) -> int {
        x as int
    }

    open spec fn of_number(n: int) -> u32 {
        n as u32
    }

    open spec fn fits(n: int) -> bool {
        u32::MIN <= n <= u32::MAX
    }

    fn average<I: Queryable<Item = u32>>(iter: I) -> (result: Option<u32>) {
        let mut source = iter;
        let ghost items = source.remaining();
        let ghost all = Self::numbers(items);
        let mut n: usize = 0;
        let mut total: u32 = 0;
        assert(all.take(0) =~= Seq::<int>::empty());
        loop
            invariant
                source.inv(),
                items == iter.remaining(),
                all == Self::numbers(items),
                Self::sums_fit(items),
                n <= items.len() <= usize::MAX,
                source.remaining() == items.skip(n as int),
                total == sum(all.take(n as int)),
            decreases source.remaining().len(),
        {
            match source.next() {
                Some(x) => {
                    proof {
                        assert(items.skip(n as int).drop_first() =~= items.skip(n + 1));
                        assert(x == items[n as int]);
                        lemma_sum_step(all, n as int);
                        assert(Self::fits(sum(all.take(n + 1))));
                    }
                    total = total + x;
                    n = n + 1;
                },
                None => {
                    assert(all.take(n as int) =~= all);
                    if n == 0 {
                        return None;
                    } else if (n as u128) <= (u32::MAX as u128) {
                        return Some(total / (n as u32));
                    } else {
                        proof {
                            lemma_quotient_zero(total as int, n as int);
                        }
                        return Some(0);
                    }
                },
            }
        }
    }
}

impl Average for u64 {
    open spec fn number(x: u64) -> int {
        x as int
    }

    open spec fn of_number(n: int) -> u64 {
        n as u64
    }

    open spec fn fits(n: int) -> bool {
        u64::MIN <= n <= u64::MAX
    }

    fn average<I: Queryable<Item = u64>>(iter: I) -> (result: Option<u64>) {
        let mut source = iter;
        let ghost items = source.remaining();
        let ghost all = Self::numbers(items);
        let mut n: usize = 0;
        let mut total: u64 = 0;
        assert(all.take(0) =~= Seq::<int>::empty());
        loop
            invariant
                source.inv(),
                items == iter.remaining(),
                all == Self::numbers(items),
                Self::sums_fit(items),
                n <= items.len() <= usize::MAX,
                source.remaining() == items.skip(n as int),
                total == sum(all.take(n as int)),
            decreases source.remaining().len(),
        {
            match source.next() {
                Some(x) => {
                    proof {
                        assert(items.skip(n as int).drop_first() =~= items.skip(n + 1));
                        assert(x == items[n as int]);
                        lemma_sum_step(all, n as int);
                        assert(Self::fits(sum(all.take(n + 1))));
                    }
                    total = total + x;
                    n = n + 1;
                },
                None => {
                    assert(all.take(n as int) =~= all);
                    if n == 0 {
                        return None;
                    } else if (n as u128) <= (u64::MAX as u128) {
                        return Some(total / (n as u64));
                    } else {
                        proof {
                            lemma_quotient_zero(total as int, n as int);
                        }
                        return Some(0);
                    }
                },
            }
        }
    }
}

impl Average for u128 {
    open spec fn number(x: u128) -> int {
        x as int
    }

    open spec fn of_number(n: int) -> u128 {
        n as u128
    }

    open spec fn fits(n: int) -> bool {
        u128::MIN <= n <= u128::MAX
    }

    fn average<I: Queryable<Item = u128>>(iter: I) -> (result: Option<u128>) {
        let mut source = iter;
        let ghost items = source.remaining();
        let ghost all = Self::numbers(items);
        let mut n: usize = 0;
        let mut total: u128 = 0;
        assert(all.take(0) =~= Seq::<int>::empty());
        loop
            invariant
                source.inv(),
                items == iter.remaining(),
                all == Self::numbers(items),
                Self::sums_fit(items),
                n <= items.len() <= usize::MAX,
                source.remaining() == items.skip(n as int),
                total == sum(all.take(n as int)),
            decreases source.remaining().len(),
        {
            match source.next() {
                Some(x) => {
                    proof {
                        assert(items.skip(n as int).drop_first() =~= items.skip(n + 1));
                        assert(x == items[n as int]);
                        lemma_sum_step(all, n as int);
                        assert(Self::fits(sum(all.take(n + 1))));
                    }
                    total = total + x;
                    n = n + 1;
                },
                None => {
                    assert(all.take(n as int) =~= all);
                    if n == 0 {
                        return None;
                    } else if (n as u128) <= (u128::MAX as u128) {
                        return Some(total / (n as u128));
                    } else {
                        proof {
                            lemma_quotient_zero(total as int, n as int);
                        }
                        return Some(0);
                    }
                },
            }
        }
    }
}

impl Average for i8 {
    open spec fn number(x: i8) -> int {
        x as int
    }

    open spec fn of_number(n: int) -> i8 {
        n as i8
    }

    open spec fn fits(n: int) -> bool {
        i8::MIN <= n <= i8::MAX
    }

    fn average<I: Queryable<Item = i8>>(iter: I) -> (result: Option<i8>) {
        let mut source = iter;
        let ghost items = source.remaining();
        let ghost all = Self::numbers(items);
        let mut n: usize = 0;
        let mut total: i8 = 0;
        assert(all.take(0) =~= Seq::<int>::empty());
        loop
            invariant
                source.inv(),
                items == iter.remaining(),
                all == Self::numbers(items),
                Self::sums_fit(items),
                n <= items.len() <= usize::MAX,
                source.remaining() == items.skip(n as int),
                total == sum(all.take(n as int)),
            decreases source.remaining().len(),
        {
            match source.next() {
                Some(x) => {
                    proof {
                        assert(items.skip(n as int).drop_first() =~= items.skip(n + 1));
                        assert(x == items[n as int]);
                        lemma_sum_step(all, n as int);
                        assert(Self::fits(sum(all.take(n + 1))));
                    }
                    total = total + x;
                    n = n + 1;
                },
                None => {
                    assert(all.take(n as int) =~= all);
                    if n == 0 {
                        return None;
                    } else if (n as u128) <= (i8::MAX as u128) {
                        return Some(total / (n as i8));
                    } else if total == i8::MIN && (n as u128) == (i8::MAX as u128) + 1 {
                        proof {
                            lemma_quotient_minus_one(total as int, n as int);
                        }
                        return Some(-1);
                    } else {
                        proof {
                            lemma_quotient_zero(total as int, n as int);
                        }
                        return Some(0);
                    }
                },
            }
        }
    }
}

impl Average for i16 {
    open spec fn number(x: i16) -> int {
        x as int
    }

    open spec fn of_number(n: int) -> i16 {
        n as i16
    }

    open spec fn fits(n: int) -> bool {
        i16::MIN <= n <= i16::MAX
    }

    fn average<I: Queryable<Item = i16>>(iter: I) -> (result: Option<i16>) {
        let mut source = iter;
        let ghost items = source.remaining();
        let ghost all = Self::numbers(items);
        let mut n: usize = 0;
        let mut total: i16 = 0;
        assert(all.take(0) =~= Seq::<int>::empty());
        loop
            invariant
                source.inv(),
                items == iter.remaining(),
                all == Self::numbers(items),
                Self::sums_fit(items),
                n <= items.len() <= usize::MAX,
                source.remaining() == items.skip(n as int),
                total == sum(all.take(n as int)),
            decreases source.remaining().len(),
        {
            match source.next() {
                Some(x) => {
                    proof {
                        assert(items.skip(n as int).drop_first() =~= items.skip(n + 1));
                        assert(x == items[n as int]);
                        lemma_sum_step(all, n as int);
                        assert(Self::fits(sum(all.take(n + 1))));
                    }
                    total = total + x;
                    n = n + 1;
                },
                None => {
                    assert(all.take(n as int) =~= all);
                    if n == 0 {
                        return None;
                    } else if (n as u128) <= (i16::MAX as u128) {
                        return Some(total / (n as i16));
                    } else if total == i16::MIN && (n as u128) == (i16::MAX as u128) + 1 {
                        proof {
                            lemma_quotient_minus_one(total as int, n as int);
                        }
                        return Some(-1);
                    } else {
                        proof {
                            lemma_quotient_zero(total as int, n as int);
                        }
                        return Some(0);
                    }
                },
            }
        }
    }
}

impl Average for i32 {
    open spec fn number(x: i32) -> int {
        x as int
    }

    open spec fn of_number(n: int) -> i32 {
        n as i32
    }

    open spec fn fits(n: int) -> bool {
        i32::MIN <= n <= i32::MAX
    }

    fn average<I: Queryable<Item = i32>>(iter: I) -> (result: Option<i32>) {
        let mut source = iter;
        let ghost items = source.remaining();
        let ghost all = Self::numbers(items);
        let mut n: usize = 0;
        let mut total: i32 = 0;
        assert(all.take(0) =~= Seq::<int>::empty());
        loop
            invariant
                source.inv(),
                items == iter.remaining(),
                all == Self::numbers(items),
                Self::sums_fit(items),
                n <= items.len() <= usize::MAX,
                source.remaining() == items.skip(n as int),
                total == sum(all.take(n as int)),
            decreases source.remaining().len(),
        {
            match source.next() {
                Some(x) => {
                    proof {
                        assert(items.skip(n as int).drop_first() =~= items.skip(n + 1));
                        assert(x == items[n as int]);
                        lemma_sum_step(all, n as int);
                        assert(Self::fits(sum(all.take(n + 1))));
                    }
                    total = total + x;
                    n = n + 1;
                },
                None => {
                    assert(all.take(n as int) =~= all);
                    if n == 0 {
                        return None;
                    } else if (n as u128) <= (i32::MAX as u128) {
                        return Some(total / (n as i32));
                    } else if total == i32::MIN && (n as u128) == (i32::MAX as u128) + 1 {
                        proof {
                            lemma_quotient_minus_one(total as int, n as int);
                        }
                        return Some(-1);
                    } else {
                        proof {
                            lemma_quotient_zero(total as int, n as int);
                        }
                        return Some(0);
                    }
                },
            }
        }
    }
}

impl Average for i64 {
    open spec fn number(x: i64) -> int {
        x as int
    }

    open spec fn of_number(n: int) -> i64 {
        n as i64
    }

    open spec fn fits(n: int) -> bool {
        i64::MIN <= n <= i64::MAX
    }

    fn average<I: Queryable<Item = i64>>(iter: I) -> (result: Option<i64>) {
        let mut source = iter;
        let ghost items = source.remaining();
        let ghost all = Self::numbers(items);
        let mut n: usize = 0;
        let mut total: i64 = 0;
        assert(all.take(0) =~= Seq::<int>::empty());
        loop
            invariant
                source.inv(),
                items == iter.remaining(),
                all == Self::numbers(items),
                Self::sums_fit(items),
                n <= items.len() <= usize::MAX,
                source.remaining() == items.skip(n as int),
                total == sum(all.take(n as int)),
            decreases source.remaining().len(),
        {
            match source.next() {
                Some(x) => {
                    proof {
                        assert(items.skip(n as int).drop_first() =~= items.skip(n + 1));
                        assert(x == items[n as int]);
                        lemma_sum_step(all, n as int);
                        assert(Self::fits(sum(all.take(n + 1))));
                    }
                    total = total + x;
                    n = n + 1;
                },
                None => {
                    assert(all.take(n as int) =~= all);
                    if n == 0 {
                        return None;
                    } else if (n as u128) <= (i64::MAX as u128) {
                        return Some(total / (n as i64));
                    } else if total == i64::MIN && (n as u128) == (i64::MAX as u128) + 1 {
                        proof {
                            lemma_quotient_minus_one(total as int, n as int);
                        }
                        return Some(-1);
                    } else {
                        proof {
                            lemma_quotient_zero(total as int, n as int);
                        }
                        return Some(0);
                    }
                },
            }
        }
    }
}

impl Average for i128 {
    open spec fn number(x: i128) -> int {
        x as int
    }

    open spec fn of_number(n: int) -> i128 {
        n as i128
    }

    open spec fn fits(n: int) -> bool {
        i128::MIN <= n <= i128::MAX
    }

    fn average<I: Queryable<Item = i128>>(iter: I) -> (result: Option<i128>) {
        let mut source = iter;
        let ghost items = source.remaining();
        let ghost all = Self::numbers(items);
        let mut n: usize = 0;
        let mut total: i128 = 0;
        assert(all.take(0) =~= Seq::<int>::empty());
        loop
            invariant
                source.inv(),
                items == iter.remaining(),
                all == Self::numbers(items),
                Self::sums_fit(items),
                n <= items.len() <= usize::MAX,
                source.remaining() == items.skip(n as int),
                total == sum(all.take(n as int)),
            decreases source.remaining().len(),
        {
            match source.next() {
                Some(x) => {
                    proof {
                        assert(items.skip(n as int).drop_first() =~= items.skip(n + 1));
                        assert(x == items[n as int]);
                        lemma_sum_step(all, n as int);
                        assert(Self::fits(sum(all.take(n + 1))));
                    }
                    total = total + x;
                    n = n + 1;
                },
                None => {
                    assert(all.take(n as int) =~= all);
                    if n == 0 {
                        return None;
                    } else if (n as u128) <= (i128::MAX as u128) {
                        return Some(total / (n as i128));
                    } else if total == i128::MIN && (n as u128) == (i128::MAX as u128) + 1 {
                        proof {
                            lemma_quotient_minus_one(total as int, n as int);
                        }
                        return Some(-1);
                    } else {
                        proof {
                            lemma_quotient_zero(total as int, n as int);
                        }
                        return Some(0);
                    }
                },
            }
        }
    }
}

impl Average for usize {
    open spec fn number(x: usize) -> int {
        x as int
    }

    open spec fn of_number(n: int) -> usize {
        n as usize
    }

    open spec fn fits(n: int) -> bool {
        usize::MIN <= n <= usize::MAX
    }

    fn average<I: Queryable<Item = usize>>(iter: I) -> (result: Option<usize>) {
        let mut source = iter;
        let ghost items = source.remaining();
        let ghost all = Self::numbers(items);
        let mut n: usize = 0;
        let mut total: usize = 0;
        assert(all.take(0) =~= Seq::<int>::empty());
        loop
            invariant
                source.inv(),
                items == iter.remaining(),
                all == Self::numbers(items),
                Self::sums_fit(items),
                n <= items.len() <= usize::MAX,
                source.remaining() == items.skip(n as int),
                total == sum(all.take(n as int)),
            decreases source.remaining().len(),
        {
            match source.next() {
                Some(x) => {
                    proof {
                        assert(items.skip(n as int).drop_first() =~= items.skip(n + 1));
                        assert(x == items[n as int]);
                        lemma_sum_step(all, n as int);
                        assert(Self::fits(sum(all.take(n + 1))));
                    }
                    total = total + x;
                    n = n + 1;
                },
                None => {
                    assert(all.take(n as int) =~= all);
                    if n == 0 {
                        return None;
                    } else if (n as u128) <= (usize::MAX as u128) {
                        return Some(total / (n as usize));
                    } else {
                        proof {
                            lemma_quotient_zero(total as int, n as int);
                        }
                        return Some(0);
                    }
                },
            }
        }
    }
}

} // verus!
