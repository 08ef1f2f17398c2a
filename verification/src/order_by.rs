//! Sorting by a key.

use crate::queryable::{QSource, Queryable};
use crate::reverse::{reverse, ReverseIterator};
use crate::sorting::{lemma_slot, lemma_stable_sort_len, slot, stable_sort};
use core::cmp::Ordering;
use vstd::laws_cmp::obeys_cmp;
use vstd::prelude::*;
use vstd::relations::{strongly_connected, transitive};
use vstd::std_specs::cmp::{OrdSpec, PartialEqSpec};
use vstd::std_specs::cmp::PartialOrdSpec;

verus! {

/// `f` may be called on `x`, and every key that its contract allows is the
/// one that `key` gives.
pub open spec fn keys_as<T, K, F: Fn(&T) -> K>(f: F, key: spec_fn(T) -> K, x: T) -> bool {
    &&& call_requires(f, (&x,))
    &&& forall|k: K| call_ensures(f, (&x,), k) ==> k == key(x)
}

/// `f` gives every element of `s` the key that `key` gives it.
pub open spec fn keys_as_all<T, K, F: Fn(&T) -> K>(f: F, key: spec_fn(T) -> K, s: Seq<T>) -> bool {
    forall|i: int| 0 <= i < s.len() ==> keys_as(f, key, #[trigger] s[i])
}

/// The key that the contract of `f` fixes for `x`.
pub open spec fn key_of<T, K, F: Fn(&T) -> K>(f: F, x: T) -> K {
    choose|k: K| call_ensures(f, (&x,), k)
}

/// The keys of `f` as a mathematical function.
pub open spec fn key_fn<T, K, F: Fn(&T) -> K>(f: F) -> spec_fn(T) -> K {
    |x: T| key_of(f, x)
}

/// `f` may be called on `x`, and its contract leaves one key only.
pub open spec fn keys<T, K, F: Fn(&T) -> K>(f: F, x: T) -> bool {
    &&& call_requires(f, (&x,))
    &&& forall|k1: K, k2: K| call_ensures(f, (&x,), k1) && call_ensures(f, (&x,), k2) ==> k1 == k2
}

/// `f` gives every element of `s` its key.
pub open spec fn keys_all<T, K, F: Fn(&T) -> K>(f: F, s: Seq<T>) -> bool {
    forall|i: int| 0 <= i < s.len() ==> keys(f, #[trigger] s[i])
}

/// Whether the key `a` is not greater than the key `b`.
pub open spec fn not_greater<K: PartialOrd>(a: K, b: K) -> bool {
    a.partial_cmp_spec(&b) != Some(Ordering::Greater)
}

/// The order in which `key` puts two elements: by their keys, the first not
/// greater than the second.
pub open spec fn key_order<T, K: PartialOrd>(key: spec_fn(T) -> K) -> spec_fn(T, T) -> bool {
    |a: T, b: T| not_greater(key(a), key(b))
}

/// The elements of a sequence sorted by a key, handed out first to last or
/// last to first.
pub enum OrderedIterator<T> {
    Ascending(QSource<T>),
    Descending(ReverseIterator<QSource<T>>),
}

impl<T> Queryable for OrderedIterator<T> {
    type Item = T;

    open spec fn inv(&self) -> bool {
        match self {
            OrderedIterator::Ascending(ins) => ins.inv(),
            OrderedIterator::Descending(ins) => ins.inv(),
        }
    }

    open spec fn remaining(&self) -> Seq<T> {
        match self {
            OrderedIterator::Ascending(ins) => ins.remaining(),
            OrderedIterator::Descending(ins) => ins.remaining(),
        }
    }

    fn next(&mut self) -> (item: Option<T>) {
        match self {
            OrderedIterator::Ascending(ins) => ins.next(),
            OrderedIterator::Descending(ins) => ins.next(),
        }
    }
}

/// Drains `iter` into a vector that is sorted by key, stably.
fn collect_sorted<I: Queryable, K: Ord, F: Fn(&I::Item) -> K>(
    iter: I,
    func: F,
    Ghost(key): Ghost<spec_fn(I::Item) -> K>,
) -> (sorted: Vec<I::Item>)
    requires
        iter.inv(),
        keys_as_all(func, key, iter.remaining()),
        obeys_cmp::<K>(),
    ensures
        sorted@ == stable_sort(iter.remaining(), key_order(key)),
{
    let mut source = iter;
    let ghost all = source.remaining();
    let ghost le = key_order(key);
    let ghost mut passed: int = 0;
    let mut items: Vec<I::Item> = Vec::new();
    let mut item_keys: Vec<K> = Vec::new();
    proof {
        reveal(vstd::laws_cmp::obeys_cmp_partial_ord);
        assert(all.take(0) =~= Seq::<I::Item>::empty());
    }
    loop
        invariant
            source.inv(),
            all == iter.remaining(),
            le == key_order(key),
            keys_as_all(func, key, all),
            K::obeys_partial_cmp_spec(),
            0 <= passed <= all.len(),
            source.remaining() == all.skip(passed),
            items@ == stable_sort(all.take(passed), le),
            item_keys@.len() == items@.len(),
            forall|i: int| 0 <= i < items@.len() ==> item_keys@[i] == key(#[trigger] items@[i]),
        decreases source.remaining().len(),
    {
        match source.next() {
            Some(item) => {
                assert(all.skip(passed).drop_first() =~= all.skip(passed + 1));
                assert(item == all[passed]);
                assert(keys_as(func, key, all[passed]));
                assert(all.take(passed + 1).drop_last() =~= all.take(passed));
                let item_key = func(&item);
                let mut place: usize = items.len();
                let ghost mut at: int = passed;
                proof {
                    lemma_stable_sort_len(all.take(passed), le);
                    assert(items@.take(at) =~= items@);
                }
                while place > 0 && item_keys[place - 1] > item_key
                    invariant
                        at == place,
                        place <= items@.len(),
                        item_keys@.len() == items@.len(),
                        K::obeys_partial_cmp_spec(),
                        le == key_order(key),
                        item_key == key(item),
                        forall|i: int|
                            0 <= i < items@.len() ==> item_keys@[i] == key(#[trigger] items@[i]),
                        slot(items@, item, le) == slot(items@.take(at), item, le),
                    decreases place,
                {
                    assert(items@.take(at).last() == items@[at - 1]);
                    assert(items@.take(at).drop_last() =~= items@.take(at - 1));
                    place -= 1;
                    proof {
                        at = at - 1;
                    }
                }
                proof {
                    if place > 0 {
                        assert(items@.take(at).last() == items@[at - 1]);
                    }
                    lemma_slot(items@, item, le);
                }
                items.insert(place, item);
                item_keys.insert(place, item_key);
                proof {
                    passed = passed + 1;
                }
            },
            None => {
                assert(all.take(passed) =~= all);
                return items;
            },
        }
    }
}

/// Sorts the elements of a sequence by a key, in ascending order, or in
/// descending order if `descending` is set, in terms of a description of
/// the key that the caller gives. The sort is stable. The descending order
/// is the ascending order reversed, so that elements with equal keys come
/// out last to first.
pub fn order_by_with_model<I: Queryable, K: Ord, F: Fn(&I::Item) -> K>(
    iter: I,
    func: F,
    descending: bool,
    Ghost(key): Ghost<spec_fn(I::Item) -> K>,
) -> (adapter: OrderedIterator<I::Item>)
    requires
        iter.inv(),
        keys_as_all(func, key, iter.remaining()),
        obeys_cmp::<K>(),
    ensures
        adapter.inv(),
        adapter.remaining() == if descending {
            stable_sort(iter.remaining(), key_order(key)).reverse()
        } else {
            stable_sort(iter.remaining(), key_order(key))
        },
{
    let temp = collect_sorted(iter, func, Ghost(key));
    if descending {
        OrderedIterator::Descending(reverse(QSource::from_vec(temp)))
    } else {
        OrderedIterator::Ascending(QSource::from_vec(temp))
    }
}

/// Sorts the elements of a sequence by a key, in ascending order, or in
/// descending order if `descending` is set. The sort is stable. The
/// descending order is the ascending order reversed, so that elements with
/// equal keys come out last to first.
pub fn order_by<I: Queryable, K: Ord, F: Fn(&I::Item) -> K>(
    iter: I,
    func: F,
    descending: bool,
) -> (adapter: OrderedIterator<I::Item>)
    requires
        iter.inv(),
        keys_all(func, iter.remaining()),
        obeys_cmp::<K>(),
    ensures
        adapter.inv(),
        adapter.remaining() == if descending {
            stable_sort(iter.remaining(), key_order(key_fn(func))).reverse()
        } else {
            stable_sort(iter.remaining(), key_order(key_fn(func)))
        },
{
    proof {
        let s = iter.remaining();
        assert forall|i: int| 0 <= i < s.len() implies keys_as(
            func,
            key_fn(func),
            #[trigger] s[i],
        ) by {
            assert(keys(func, s[i]));
        }
    }
    order_by_with_model(iter, func, descending, Ghost(key_fn(func)))
}

/// Where the keys obey the laws of a total order, the order by key is
/// transitive and compares any two elements.
pub proof fn lemma_key_order_total<T, K: Ord>(key: spec_fn(T) -> K)
    requires
        obeys_cmp::<K>(),
    ensures
        transitive(key_order(key)),
        strongly_connected(key_order(key)),
{
    let le = key_order(key);
    assert forall|x: T, y: T, z: T| #[trigger] le(x, y) && #[trigger] le(y, z) implies le(x, z) by {
        lemma_not_greater_transitive(key(x), key(y), key(z));
    }
    assert forall|x: T, y: T| #[trigger] le(x, y) || #[trigger] le(y, x) by {
        lemma_not_greater_total(key(x), key(y));
    }
}

/// Of two keys, one is not greater than the other.
pub proof fn lemma_not_greater_total<K: Ord>(a: K, b: K)
    requires
        obeys_cmp::<K>(),
    ensures
        not_greater(a, b) || not_greater(b, a),
{
    reveal(vstd::laws_cmp::obeys_partial_cmp_spec_properties);
    if a.partial_cmp_spec(&b) == Some(Ordering::Greater) {
        assert(b.partial_cmp_spec(&a) == Some(Ordering::Less));
    }
}

/// A key not greater than a second, which is not greater than a third, is
/// not greater than the third.
pub proof fn lemma_not_greater_transitive<K: Ord>(a: K, b: K, c: K)
    requires
        obeys_cmp::<K>(),
        not_greater(a, b),
        not_greater(b, c),
    ensures
        not_greater(a, c),
{
    reveal(vstd::laws_cmp::obeys_partial_cmp_spec_properties);
    reveal(vstd::laws_cmp::obeys_cmp_ord);
    reveal(vstd::laws_cmp::obeys_cmp_partial_ord);
    reveal(vstd::laws_eq::obeys_eq_spec_properties);
    let ab = a.partial_cmp_spec(&b);
    let bc = b.partial_cmp_spec(&c);
    let ac = a.partial_cmp_spec(&c);
    assert(ab == Some(a.cmp_spec(&b)));
    assert(bc == Some(b.cmp_spec(&c)));
    assert(ac == Some(a.cmp_spec(&c)));
    if ac == Some(Ordering::Greater) {
        let ca = c.partial_cmp_spec(&a);
        assert(ca == Some(Ordering::Less));
        if ab == Some(Ordering::Less) {
            // c < a < b, yet b is not greater than c
            assert(c.partial_cmp_spec(&b) == Some(Ordering::Less));
            assert(b.partial_cmp_spec(&c) == Some(Ordering::Greater));
        } else {
            // a and b are equal, so c < b as well
            assert(ab == Some(Ordering::Equal));
            assert(a.eq_spec(&b));
            if bc == Some(Ordering::Less) {
                // b < c < a, yet a equals b
                assert(b.partial_cmp_spec(&a) == Some(Ordering::Less));
                assert(a.partial_cmp_spec(&b) == Some(Ordering::Greater));
            } else {
                assert(bc == Some(Ordering::Equal));
                assert(b.eq_spec(&c));
                assert(a.eq_spec(&c));
            }
        }
    }
}

} // verus!
