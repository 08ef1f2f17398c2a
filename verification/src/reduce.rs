//! Terminal operations: they drive a producer and return a value.

use crate::model::{beyond, combined_fn, combines, finds, lemma_beyond_head, pairs};
use crate::queryable::Queryable;
use crate::skip::skip_seq;
use vstd::prelude::*;
use vstd::std_specs::cmp::PartialEqSpec;

verus! {

/// `f` pairs, at every place of `s`, the fold of what precedes that place
/// with the element there, as `step` does.
pub open spec fn folds_as<B, T, F: Fn(B, T) -> B>(
    f: F,
    step: spec_fn(B, T) -> B,
    init: B,
    s: Seq<T>,
) -> bool {
    forall|k: int|
        0 <= k < s.len() ==> pairs(f, step, (#[trigger] s.take(k)).fold_left(init, step), s[k])
}

/// `f` combines, at every place of `s`, the fold of what precedes that place
/// with the element there.
pub open spec fn folds<B, T, F: Fn(B, T) -> B>(f: F, init: B, s: Seq<T>) -> bool {
    forall|k: int|
        0 <= k < s.len() ==> combines(
            f,
            (#[trigger] s.take(k)).fold_left(init, combined_fn(f)),
            s[k],
        )
}

/// The predicate that holds on what the element type's own equality takes
/// for equal to `value`.
pub open spec fn equals_fn<V: PartialEq>(value: V) -> spec_fn(V) -> bool {
    |x: V| x.eq_spec(&value)
}

/// Returns the first element of a sequence, if it has one. Takes that
/// element from the producer and no other.
pub fn first<I: Queryable>(iter: &mut I) -> (item: Option<I::Item>)
    requires
        old(iter).inv(),
    ensures
        final(iter).inv(),
        item == if old(iter).remaining().len() > 0 {
            Some(old(iter).remaining().first())
        } else {
            None
        },
        final(iter).remaining() == skip_seq(old(iter).remaining(), 1),
{
    let ghost before = iter.remaining();
    let item = iter.next();
    assert(before.len() > 0 ==> before.skip(1) =~= before.drop_first());
    assert(before.len() == 0 ==> before =~= Seq::<I::Item>::empty());
    item
}

/// Returns the element at a given place of a sequence, counted from zero,
/// if the sequence is that long. Takes the elements up to that place from
/// the producer, that place included, and no other.
pub fn element_at<I: Queryable>(iter: &mut I, index: usize) -> (item: Option<I::Item>)
    requires
        old(iter).inv(),
    ensures
        final(iter).inv(),
        item == if index < old(iter).remaining().len() {
            Some(old(iter).remaining()[index as int])
        } else {
            None
        },
        final(iter).remaining() == skip_seq(old(iter).remaining(), index as nat + 1),
{
    let ghost all = iter.remaining();
    let mut passed: usize = 0;
    while passed < index
        invariant
            iter.inv(),
            all == old(iter).remaining(),
            passed <= index,
            passed <= all.len(),
            iter.remaining() == all.skip(passed as int),
        decreases index - passed,
    {
        match iter.next() {
            Some(_) => {
                assert(all.skip(passed as int).drop_first() =~= all.skip(passed + 1));
                passed += 1;
            },
            None => {
                assert(all.skip(passed as int) =~= Seq::<I::Item>::empty());
                return None;
            },
        }
    }
    let item = iter.next();
    proof {
        if index < all.len() {
            assert(all.skip(index as int).drop_first() =~= all.skip(index + 1));
        } else {
            assert(all.skip(index as int) =~= Seq::<I::Item>::empty());
        }
    }
    item
}

/// Returns the only element of a sequence; nothing if the sequence is empty
/// or has more than one element. Takes the first element from the producer
/// and looks ahead by one more.
pub fn single<I: Queryable>(iter: &mut I) -> (item: Option<I::Item>)
    requires
        old(iter).inv(),
    ensures
        final(iter).inv(),
        item == if old(iter).remaining().len() == 1 {
            Some(old(iter).remaining().first())
        } else {
            None
        },
        final(iter).remaining() == skip_seq(old(iter).remaining(), 2),
{
    let ghost before = iter.remaining();
    match iter.next() {
        Some(item) => {
            let ahead = iter.next();
            proof {
                if before.len() >= 2 {
                    assert(before.drop_first().drop_first() =~= before.skip(2));
                }
            }
            if ahead.is_none() {
                Some(item)
            } else {
                None
            }
        },
        None => {
            assert(before =~= Seq::<I::Item>::empty());
            None
        },
    }
}

/// Determines whether a sequence contains an element equal to `value`, by
/// the element type's own equality. Takes the elements up to the first
/// equal one from the producer, and no other.
pub fn contains<I: Queryable<Item = V>, V: Eq>(iter: &mut I, value: &V) -> (found: bool)
    requires
        old(iter).inv(),
    ensures
        final(iter).inv(),
        V::obeys_eq_spec() ==> found == exists|i: int|
            0 <= i < old(iter).remaining().len() && (#[trigger] old(iter).remaining()[i]).eq_spec(
                value,
            ),
        V::obeys_eq_spec() ==> final(iter).remaining() == beyond(
            old(iter).remaining(),
            equals_fn(*value),
        ),
{
    let ghost same = equals_fn(*value);
    proof {
        lemma_finds_exists(iter.remaining(), same);
    }
    loop
        invariant
            iter.inv(),
            same == equals_fn(*value),
            finds(old(iter).remaining(), same) <==> exists|i: int|
                0 <= i < old(iter).remaining().len() && same(#[trigger] old(iter).remaining()[i]),
            V::obeys_eq_spec() ==> finds(iter.remaining(), same) == finds(
                old(iter).remaining(),
                same,
            ),
            V::obeys_eq_spec() ==> beyond(iter.remaining(), same) == beyond(
                old(iter).remaining(),
                same,
            ),
        decreases iter.remaining().len(),
    {
        let ghost before = iter.remaining();
        proof {
            lemma_beyond_head(before, same);
        }
        match iter.next() {
            Some(item) => {
                if item == *value {
                    return true;
                }
            },
            None => {
                return false;
            },
        }
    }
}

/// Whether `pred` holds on some element of `s`, said by a place in `s`.
pub proof fn lemma_finds_exists<T>(s: Seq<T>, pred: spec_fn(T) -> bool)
    ensures
        finds(s, pred) <==> exists|i: int| 0 <= i < s.len() && pred(#[trigger] s[i]),
    decreases s.len(),
{
    if s.len() > 0 {
        lemma_finds_exists(s.drop_first(), pred);
        if finds(s, pred) {
            if pred(s.first()) {
                assert(pred(s[0]));
            } else {
                let i = choose|i: int|
                    0 <= i < s.drop_first().len() && pred(#[trigger] s.drop_first()[i]);
                assert(pred(s[i + 1]));
            }
        }
        if exists|i: int| 0 <= i < s.len() && pred(#[trigger] s[i]) {
            let i = choose|i: int| 0 <= i < s.len() && pred(#[trigger] s[i]);
            if i > 0 {
                assert(pred(s.drop_first()[i - 1]));
            }
        }
    }
}

/// Applies an accumulator function over a sequence, left to right, starting
/// from `init`, in terms of a description of the function that the caller
/// gives.
pub fn aggregate_with_model<I: Queryable, B, F: Fn(B, I::Item) -> B>(
    iter: I,
    init: B,
    f: F,
    Ghost(step): Ghost<spec_fn(B, I::Item) -> B>,
) -> (result: B)
    requires
        iter.inv(),
        folds_as(f, step, init, iter.remaining()),
    ensures
        result == iter.remaining().fold_left(init, step),
{
    let mut source = iter;
    let ghost all = source.remaining();
    let ghost mut passed: int = 0;
    let mut acc = init;
    loop
        invariant
            source.inv(),
            all == iter.remaining(),
            0 <= passed <= all.len(),
            source.remaining() == all.skip(passed),
            acc == all.take(passed).fold_left(init, step),
            folds_as(f, step, init, all),
        decreases source.remaining().len(),
    {
        match source.next() {
            Some(item) => {
                assert(all.skip(passed).drop_first() =~= all.skip(passed + 1));
                assert(item == all[passed]);
                assert(all.take(passed + 1).drop_last() =~= all.take(passed));
                acc = f(acc, item);
                proof {
                    passed = passed + 1;
                }
            },
            None => {
                assert(all.take(passed) =~= all);
                return acc;
            },
        }
    }
}

/// Applies an accumulator function over a sequence, left to right, starting
/// from `init`.
pub fn aggregate<I: Queryable, B, F: Fn(B, I::Item) -> B>(iter: I, init: B, f: F) -> (result: B)
    requires
        iter.inv(),
        folds(f, init, iter.remaining()),
    ensures
        result == iter.remaining().fold_left(init, combined_fn(f)),
{
    proof {
        let s = iter.remaining();
        assert forall|k: int| 0 <= k < s.len() implies pairs(
            f,
            combined_fn(f),
            (#[trigger] s.take(k)).fold_left(init, combined_fn(f)),
            s[k],
        ) by {
            assert(combines(f, s.take(k).fold_left(init, combined_fn(f)), s[k]));
        }
    }
    aggregate_with_model(iter, init, f, Ghost(combined_fn(f)))
}

/// Returns the number of elements in a sequence.
pub fn count<I: Queryable>(iter: I) -> (n: usize)
    requires
        iter.inv(),
        iter.remaining().len() <= usize::MAX,
    ensures
        n == iter.remaining().len(),
{
    let mut source = iter;
    let ghost all = source.remaining();
    let mut n: usize = 0;
    loop
        invariant
            source.inv(),
            all == iter.remaining(),
            n <= all.len() <= usize::MAX,
            source.remaining() == all.skip(n as int),
        decreases source.remaining().len(),
    {
        match source.next() {
            Some(_) => {
                assert(all.skip(n as int).drop_first() =~= all.skip(n + 1));
                n += 1;
            },
            None => {
                return n;
            },
        }
    }
}

/// Collects the elements of a sequence into a vector, in order.
pub fn to_vec<I: Queryable>(iter: I) -> (v: Vec<I::Item>)
    requires
        iter.inv(),
    ensures
        v@ == iter.remaining(),
{
    let mut source = iter;
    let ghost all = source.remaining();
    let mut v: Vec<I::Item> = Vec::new();
    loop
        invariant
            source.inv(),
            all == iter.remaining(),
            v@ + source.remaining() == all,
        decreases source.remaining().len(),
    {
        let ghost rest = source.remaining();
        match source.next() {
            Some(item) => {
                v.push(item);
                assert(v@ + source.remaining() =~= (v@.drop_last() + rest));
            },
            None => {
                assert(v@ + rest =~= v@);
                return v;
            },
        }
    }
}

} // verus!
