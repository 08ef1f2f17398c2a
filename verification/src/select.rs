//! Projecting each element into a new form.

use crate::model::{
    combined_fn, combines, computes, computes_all, lemma_maps_all_computes, mapped_fn, maps_all,
    pairs,
};
use crate::queryable::{DoubleEndedQueryable, Queryable};
use vstd::prelude::*;

verus! {

/// Yields `f` of each element of `iter`.
#[verifier::reject_recursive_types(I)]
#[verifier::reject_recursive_types(B)]
pub struct SelectIterator<I: Queryable, F, B> {
    iter: I,
    f: F,
    model: Ghost<spec_fn(I::Item) -> B>,
}

impl<B, I: Queryable, F: Fn(I::Item) -> B> SelectIterator<I, F, B> {
    /// The projection of `iter` by `f`, in terms of a description of `f`
    /// that the caller gives.
    pub fn with_model(iter: I, f: F, Ghost(model): Ghost<spec_fn(I::Item) -> B>) -> (adapter: Self)
        requires
            iter.inv(),
            computes_all(f, model, iter.remaining()),
        ensures
            adapter.inv(),
            adapter.remaining() == iter.remaining().map_values(model),
            adapter.upstream() == iter.remaining(),
    {
        SelectIterator { iter, f, model: Ghost(model) }
    }

    /// What the wrapped producer has yet to yield.
    pub closed spec fn upstream(&self) -> Seq<I::Item> {
        self.iter.remaining()
    }
}

impl<B, I: Queryable, F: Fn(I::Item) -> B> Queryable for SelectIterator<I, F, B> {
    type Item = B;

    closed spec fn inv(&self) -> bool {
        &&& self.iter.inv()
        &&& computes_all(self.f, self.model@, self.iter.remaining())
    }

    closed spec fn remaining(&self) -> Seq<B> {
        self.iter.remaining().map_values(self.model@)
    }

    /// Takes one element from the wrapped producer, if it has one.
    fn next(&mut self) -> (item: Option<B>)
        ensures
            final(self).upstream() == if old(self).upstream().len() > 0 {
                old(self).upstream().drop_first()
            } else {
                old(self).upstream()
            },
    {
        let ghost before = self.iter.remaining();
        match self.iter.next() {
            Some(x) => {
                assert(computes(self.f, self.model@, before[0]));
                assert forall|i: int| 0 <= i < before.drop_first().len() implies computes(
                    self.f,
                    self.model@,
                    #[trigger] before.drop_first()[i],
                ) by {
                    assert(before.drop_first()[i] == before[i + 1]);
                }
                assert(before.map_values(self.model@).drop_first()
                    =~= before.drop_first().map_values(self.model@));
                Some((self.f)(x))
            },
            None => None,
        }
    }
}

impl<B, I: DoubleEndedQueryable, F: Fn(I::Item) -> B> DoubleEndedQueryable for SelectIterator<
    I,
    F,
    B,
> {
    /// Takes one element from the tail of the wrapped producer, if it has
    /// one.
    fn next_back(&mut self) -> (item: Option<B>)
        ensures
            final(self).upstream() == if old(self).upstream().len() > 0 {
                old(self).upstream().drop_last()
            } else {
                old(self).upstream()
            },
    {
        let ghost before = self.iter.remaining();
        match self.iter.next_back() {
            Some(x) => {
                assert(computes(self.f, self.model@, before[before.len() - 1]));
                assert forall|i: int| 0 <= i < before.drop_last().len() implies computes(
                    self.f,
                    self.model@,
                    #[trigger] before.drop_last()[i],
                ) by {
                    assert(before.drop_last()[i] == before[i]);
                }
                assert(before.map_values(self.model@).drop_last() =~= before.drop_last().map_values(
                    self.model@,
                ));
                Some((self.f)(x))
            },
            None => None,
        }
    }
}

/// Projects each element of a sequence into a new form.
pub fn select<I: Queryable, B, F: Fn(I::Item) -> B>(iter: I, f: F) -> (adapter: SelectIterator<
    I,
    F,
    B,
>)
    requires
        iter.inv(),
        maps_all(f, iter.remaining()),
    ensures
        adapter.inv(),
        adapter.remaining() == iter.remaining().map_values(mapped_fn(f)),
        adapter.upstream() == iter.remaining(),
{
    proof {
        lemma_maps_all_computes(f, iter.remaining());
    }
    SelectIterator::with_model(iter, f, Ghost(mapped_fn(f)))
}

/// Projects each element of a sequence into a new form, by a function of
/// one argument.
pub fn select_one<I: Queryable, B, F: Fn(I::Item) -> B>(iter: I, f: F) -> (adapter: SelectIterator<
    I,
    F,
    B,
>)
    requires
        iter.inv(),
        maps_all(f, iter.remaining()),
    ensures
        adapter.inv(),
        adapter.remaining() == iter.remaining().map_values(mapped_fn(f)),
        adapter.upstream() == iter.remaining(),
{
    select(iter, f)
}

/// `f` pairs the two parts of every pair of `s` as `model` does.
pub open spec fn pairs_each<A, B, R, F: Fn(A, B) -> R>(
    f: F,
    model: spec_fn(A, B) -> R,
    s: Seq<(A, B)>,
) -> bool {
    forall|i: int| 0 <= i < s.len() ==> pairs(f, model, (#[trigger] s[i]).0, s[i].1)
}

/// `f` combines the two parts of every pair of `s`.
pub open spec fn combines_each<A, B, R, F: Fn(A, B) -> R>(f: F, s: Seq<(A, B)>) -> bool {
    forall|i: int| 0 <= i < s.len() ==> combines(f, (#[trigger] s[i]).0, s[i].1)
}

/// A function of two arguments as a function of pairs.
pub open spec fn of_pair<A, B, R>(model: spec_fn(A, B) -> R) -> spec_fn((A, B)) -> R {
    |pair: (A, B)| model(pair.0, pair.1)
}

/// Yields `f` of the two parts of each pair of `iter`.
#[verifier::reject_recursive_types(K)]
#[verifier::reject_recursive_types(V)]
#[verifier::reject_recursive_types(B)]
pub struct SelectTwoIterator<I, F, K, V, B> {
    iter: I,
    f: F,
    model: Ghost<spec_fn(K, V) -> B>,
}

impl<B, I: Queryable<Item = (K, V)>, F: Fn(K, V) -> B, K, V> SelectTwoIterator<I, F, K, V, B> {
    /// The projection of the pairs of `iter` by `f`, in terms of a
    /// description of `f` that the caller gives.
    pub fn with_model(iter: I, f: F, Ghost(model): Ghost<spec_fn(K, V) -> B>) -> (adapter: Self)
        requires
            iter.inv(),
            pairs_each(f, model, iter.remaining()),
        ensures
            adapter.inv(),
            adapter.remaining() == iter.remaining().map_values(of_pair(model)),
            adapter.upstream() == iter.remaining(),
    {
        SelectTwoIterator { iter, f, model: Ghost(model) }
    }

    /// What the wrapped producer has yet to yield.
    pub closed spec fn upstream(&self) -> Seq<(K, V)> {
        self.iter.remaining()
    }
}

impl<B, I: Queryable<Item = (K, V)>, F: Fn(K, V) -> B, K, V> Queryable for SelectTwoIterator<
    I,
    F,
    K,
    V,
    B,
> {
    type Item = B;

    closed spec fn inv(&self) -> bool {
        &&& self.iter.inv()
        &&& pairs_each(self.f, self.model@, self.iter.remaining())
    }

    closed spec fn remaining(&self) -> Seq<B> {
        self.iter.remaining().map_values(of_pair(self.model@))
    }

    /// Takes one pair from the wrapped producer, if it has one.
    fn next(&mut self) -> (item: Option<B>)
        ensures
            final(self).upstream() == if old(self).upstream().len() > 0 {
                old(self).upstream().drop_first()
            } else {
                old(self).upstream()
            },
    {
        let ghost before = self.iter.remaining();
        match self.iter.next() {
            Some((k, v)) => {
                assert(pairs(self.f, self.model@, before[0].0, before[0].1));
                assert forall|i: int| 0 <= i < before.drop_first().len() implies pairs(
                    self.f,
                    self.model@,
                    (#[trigger] before.drop_first()[i]).0,
                    before.drop_first()[i].1,
                ) by {
                    assert(before.drop_first()[i] == before[i + 1]);
                }
                assert(before.map_values(of_pair(self.model@)).drop_first()
                    =~= before.drop_first().map_values(of_pair(self.model@)));
                Some((self.f)(k, v))
            },
            None => None,
        }
    }
}

/// Projects each pair of a sequence into a new form, by a function of two
/// arguments.
pub fn select_two<B, I: Queryable<Item = (K, V)>, F: Fn(K, V) -> B, K, V>(
    iter: I,
    f: F,
) -> (adapter: SelectTwoIterator<I, F, K, V, B>)
    requires
        iter.inv(),
        combines_each(f, iter.remaining()),
    ensures
        adapter.inv(),
        adapter.remaining() == iter.remaining().map_values(of_pair(combined_fn(f))),
        adapter.upstream() == iter.remaining(),
{
    proof {
        let s = iter.remaining();
        assert forall|i: int| 0 <= i < s.len() implies pairs(
            f,
            combined_fn(f),
            (#[trigger] s[i]).0,
            s[i].1,
        ) by {
            assert(combines(f, s[i].0, s[i].1));
        }
    }
    SelectTwoIterator::with_model(iter, f, Ghost(combined_fn(f)))
}

} // verus!
