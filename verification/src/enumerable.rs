//! The fluent surface: every operator as a method of every producer.

use crate::concate::QConcate;
use crate::distinct::{distinct_seq, DistinctIterator};
use crate::model::{
    answers_all, beyond, combined_fn, computes_all, decides_all, expands_all, holds_fn, inner_fn,
    mapped_fn, maps_all, unfolds_all,
};
use crate::order_by::{key_fn, key_order, keys_all, keys_as_all, OrderedIterator};
use crate::queryable::{DoubleEndedQueryable, Queryable};
use crate::reduce::{equals_fn, folds, folds_as};
use crate::reverse::ReverseIterator;
use crate::select::SelectIterator;
use crate::select_many::{
    joined_fn, joins_all, selects_all, SelectManyIterator, SelectManySingleIterator,
};
use crate::skip::{skip_seq, QSkip};
use crate::skip_while::QSkipWhile;
use crate::sorting::stable_sort;
use crate::take::{take_seq, QTake};
use crate::take_while::{answers_leading, decides_leading, leading, QTakeWhile};
use crate::union::UnionIterator;
use crate::where_by::QWhere;
use crate::zip_from::{zipped_fn, zipped_inner_fn, zips_all, ZipFromIterator};
use std::hash::Hash;
use vstd::laws_cmp::obeys_cmp;
use vstd::prelude::*;
use vstd::std_specs::cmp::PartialEqSpec;
use vstd::std_specs::hash::obeys_key_model;

verus! {

/// The operators of this crate as methods. Every [`Queryable`] has them:
/// there is nothing to implement.
pub trait Enumerable: Queryable + Sized {
    /// Filters a sequence of values based on a predicate.
    fn where_by<P: Fn(&Self::Item) -> bool>(self, predicate: P) -> (adapter: QWhere<Self, P>)
        requires
            self.inv(),
            decides_all(predicate, self.remaining()),
        ensures
            adapter.inv(),
            adapter.remaining() == self.remaining().filter(holds_fn(predicate)),
            adapter.upstream() == self.remaining(),
            adapter.model() == holds_fn(predicate),
    {
        crate::where_by::where_by(self, predicate)
    }

    /// Projects each element of a sequence into a new form.
    fn select<TResult, F: Fn(Self::Item) -> TResult>(self, f: F) -> (adapter: SelectIterator<
        Self,
        F,
        TResult,
    >)
        requires
            self.inv(),
            maps_all(f, self.remaining()),
        ensures
            adapter.inv(),
            adapter.remaining() == self.remaining().map_values(mapped_fn(f)),
            adapter.upstream() == self.remaining(),
    {
        crate::select::select(self, f)
    }

    /// Projects each element of a sequence to a producer and flattens the
    /// resulting sequences into one sequence.
    fn select_many_single<TCollection: Queryable, F: Fn(Self::Item) -> TCollection>(
        self,
        f: F,
    ) -> (adapter: SelectManySingleIterator<Self, TCollection, F>)
        requires
            self.inv(),
            expands_all(f, self.remaining()),
        ensures
            adapter.inv(),
            adapter.remaining() == self.remaining().flat_map(inner_fn(f)),
            adapter.upstream() == self.remaining(),
            adapter.current() == Seq::<TCollection::Item>::empty(),
            adapter.model() == inner_fn(f),
            !adapter.done(),
    {
        crate::select_many::select_many_single(self, f)
    }

    /// Projects each element of a sequence to a producer, flattens the
    /// resulting sequences into one sequence, and invokes a result selector
    /// on each element therein together with the element that it came from.
    fn select_many<TResult, TCollection: Queryable, FC, FR>(self, fc: FC, fr: FR) -> (adapter:
        SelectManyIterator<Self, TCollection, FC, FR, TResult>) where
        Self::Item: Clone,
        FC: Fn(Self::Item) -> TCollection,
        FR: Fn(Self::Item, TCollection::Item) -> TResult,

        requires
            self.inv(),
            selects_all(fc, fr, self.remaining()),
        ensures
            adapter.inv(),
            adapter.remaining() == self.remaining().flat_map(
                joined_fn(inner_fn(fc), combined_fn(fr)),
            ),
            adapter.upstream() == self.remaining(),
            adapter.current() == Seq::<TCollection::Item>::empty(),
            adapter.model() == inner_fn(fc),
            !adapter.done(),
    {
        crate::select_many::select_many(self, fc, fr)
    }

    /// Projects each element of a sequence to a producer and flattens the
    /// resulting sequences into one sequence of pairs: the element, and one
    /// element that it was projected to.
    fn zip_from<TCollection: Queryable, F>(self, f: F) -> (adapter: ZipFromIterator<
        Self,
        TCollection,
        F,
    >) where Self::Item: Clone, F: Fn(&Self::Item) -> TCollection
        requires
            self.inv(),
            zips_all(f, zipped_inner_fn(f), self.remaining()),
        ensures
            adapter.inv(),
            adapter.remaining() == self.remaining().flat_map(zipped_fn(zipped_inner_fn(f))),
            adapter.upstream() == self.remaining(),
            adapter.current() == Seq::<TCollection::Item>::empty(),
            adapter.model() == zipped_inner_fn(f),
            !adapter.done(),
    {
        crate::zip_from::zip_from(self, f)
    }

    /// Sorts the elements of a sequence in ascending order according to a
    /// key. The sort is stable.
    fn order_by<TKey: Ord, F: Fn(&Self::Item) -> TKey>(self, f: F) -> (adapter: OrderedIterator<
        Self::Item,
    >)
        requires
            self.inv(),
            keys_all(f, self.remaining()),
            obeys_cmp::<TKey>(),
        ensures
            adapter.inv(),
            adapter.remaining() == stable_sort(self.remaining(), key_order(key_fn(f))),
    {
        crate::order_by::order_by(self, f, false)
    }

    /// Sorts the elements of a sequence in descending order according to a
    /// key: the ascending order reversed, so that elements with equal keys
    /// come out last to first.
    fn order_by_descending<TKey: Ord, F: Fn(&Self::Item) -> TKey>(self, f: F) -> (adapter:
        OrderedIterator<Self::Item>)
        requires
            self.inv(),
            keys_all(f, self.remaining()),
            obeys_cmp::<TKey>(),
        ensures
            adapter.inv(),
            adapter.remaining() == stable_sort(self.remaining(), key_order(key_fn(f))).reverse(),
    {
        crate::order_by::order_by(self, f, true)
    }

    /// Concatenates two sequences.
    fn concate<U: Queryable<Item = Self::Item>>(self, other: U) -> (adapter: QConcate<Self, U>)
        requires
            self.inv(),
            other.inv(),
        ensures
            adapter.inv(),
            adapter.remaining() == self.remaining() + other.remaining(),
            adapter.first_upstream() == self.remaining(),
            adapter.second_upstream() == other.remaining(),
            !adapter.switched(),
    {
        crate::concate::concate(self, other)
    }

    /// Returns the first element of a sequence, if it has one. Takes that
    /// element from the producer and no other.
    fn first(&mut self) -> (item: Option<Self::Item>)
        requires
            old(self).inv(),
        ensures
            final(self).inv(),
            item == if old(self).remaining().len() > 0 {
                Some(old(self).remaining().first())
            } else {
                None
            },
            final(self).remaining() == skip_seq(old(self).remaining(), 1),
    {
        crate::reduce::first(self)
    }

    /// Returns the element at a given place of a sequence, counted from
    /// zero, if the sequence is that long. Takes the elements up to that
    /// place from the producer, that place included, and no other.
    fn element_at(&mut self, index: usize) -> (item: Option<Self::Item>)
        requires
            old(self).inv(),
        ensures
            final(self).inv(),
            item == if index < old(self).remaining().len() {
                Some(old(self).remaining()[index as int])
            } else {
                None
            },
            final(self).remaining() == skip_seq(old(self).remaining(), index as nat + 1),
    {
        crate::reduce::element_at(self, index)
    }

    /// Returns the only element of a sequence; nothing if the sequence is
    /// empty or has more than one element. Takes the first element from the
    /// producer and looks ahead by one more.
    fn single(&mut self) -> (item: Option<Self::Item>)
        requires
            old(self).inv(),
        ensures
            final(self).inv(),
            item == if old(self).remaining().len() == 1 {
                Some(old(self).remaining().first())
            } else {
                None
            },
            final(self).remaining() == skip_seq(old(self).remaining(), 2),
    {
        crate::reduce::single(self)
    }

    /// Inverts the order of the elements in a sequence.
    fn reverse(self) -> (adapter: ReverseIterator<Self>) where Self: DoubleEndedQueryable
        requires
            self.inv(),
        ensures
            adapter.inv(),
            adapter.remaining() == self.remaining().reverse(),
            adapter.upstream() == self.remaining(),
    {
        crate::reverse::reverse(self)
    }

    /// Determines whether a sequence contains an element equal to `value`,
    /// by the element type's own equality. Takes the elements up to the
    /// first equal one from the producer, and no other.
    fn contains(&mut self, value: &Self::Item) -> (found: bool) where Self::Item: Eq
        requires
            old(self).inv(),
        ensures
            final(self).inv(),
            Self::Item::obeys_eq_spec() ==> found == exists|i: int|
                0 <= i < old(self).remaining().len() && (#[trigger] old(
                    self,
                ).remaining()[i]).eq_spec(value),
            Self::Item::obeys_eq_spec() ==> final(self).remaining() == beyond(
                old(self).remaining(),
                equals_fn(*value),
            ),
    {
        crate::reduce::contains(self, value)
    }

    /// Applies an accumulator function over a sequence, left to right,
    /// starting from `init`.
    fn aggregate<B, F: Fn(B, Self::Item) -> B>(self, init: B, f: F) -> (result: B)
        requires
            self.inv(),
            folds(f, init, self.remaining()),
        ensures
            result == self.remaining().fold_left(init, combined_fn(f)),
    {
        crate::reduce::aggregate(self, init, f)
    }

    /// Returns the distinct elements of a sequence, each at the place of its
    /// first occurrence.
    fn distinct(self) -> (adapter: DistinctIterator<Self>) where Self::Item: Eq + Hash + Copy
        requires
            self.inv(),
            obeys_key_model::<Self::Item>(),
        ensures
            adapter.inv(),
            adapter.remaining() == distinct_seq(self.remaining()),
            adapter.upstream() == self.remaining(),
            adapter.seen() == Set::<Self::Item>::empty(),
    {
        crate::distinct::distinct(self)
    }

    /// Produces the set union of two sequences: every element of either,
    /// once, at the place where it first occurs in `self` followed by
    /// `union_with`.
    fn union<U: Queryable<Item = Self::Item>>(self, union_with: U) -> (adapter: UnionIterator<
        Self,
        U,
    >) where Self::Item: Eq + Hash + Copy
        requires
            self.inv(),
            union_with.inv(),
            obeys_key_model::<Self::Item>(),
        ensures
            adapter.inv(),
            adapter.remaining() == distinct_seq(self.remaining() + union_with.remaining()),
            adapter.first_upstream() == self.remaining(),
            adapter.second_upstream() == union_with.remaining(),
            adapter.seen() == Set::<Self::Item>::empty(),
    {
        crate::union::union(self, union_with)
    }

    /// Bypasses the first `count` elements of a sequence and returns the
    /// rest.
    fn skip(self, count: usize) -> (adapter: QSkip<Self>)
        requires
            self.inv(),
        ensures
            adapter.inv(),
            adapter.remaining() == skip_seq(self.remaining(), count as nat),
            adapter.upstream() == self.remaining(),
            adapter.left() == count,
    {
        QSkip::new(self, count)
    }

    /// Bypasses the elements of a sequence as long as a predicate holds and
    /// returns the rest.
    fn skip_while<P: Fn(&Self::Item) -> bool>(self, predicate: P) -> (adapter: QSkipWhile<
        Self,
        P,
    >)
        requires
            self.inv(),
            decides_leading(predicate, self.remaining()),
        ensures
            adapter.inv(),
            adapter.remaining() == self.remaining().skip(
                leading(self.remaining(), holds_fn(predicate)) as int,
            ),
            adapter.upstream() == self.remaining(),
            adapter.model() == holds_fn(predicate),
            adapter.skipping(),
    {
        QSkipWhile::new(self, predicate)
    }

    /// Returns the first `count` elements of a sequence.
    fn take(self, count: usize) -> (adapter: QTake<Self>)
        requires
            self.inv(),
        ensures
            adapter.inv(),
            adapter.remaining() == take_seq(self.remaining(), count as nat),
            adapter.upstream() == self.remaining(),
            adapter.left() == count,
    {
        QTake::new(self, count)
    }

    /// Returns the elements of a sequence as long as a predicate holds.
    fn take_while<P: Fn(&Self::Item) -> bool>(self, predicate: P) -> (adapter: QTakeWhile<
        Self,
        P,
    >)
        requires
            self.inv(),
            decides_leading(predicate, self.remaining()),
        ensures
            adapter.inv(),
            adapter.remaining() == self.remaining().take(
                leading(self.remaining(), holds_fn(predicate)) as int,
            ),
            adapter.upstream() == self.remaining(),
            adapter.model() == holds_fn(predicate),
            adapter.taking(),
    {
        QTakeWhile::new(self, predicate)
    }

    /// Returns the number of elements in a sequence.
    fn count(self) -> (n: usize)
        requires
            self.inv(),
            self.remaining().len() <= usize::MAX,
        ensures
            n == self.remaining().len(),
    {
        crate::reduce::count(self)
    }

    /// Collects the elements of a sequence into a vector, in order.
    fn to_vec(self) -> (v: Vec<Self::Item>)
        requires
            self.inv(),
        ensures
            v@ == self.remaining(),
    {
        crate::reduce::to_vec(self)
    }
    /// [`Enumerable::where_by`] in terms of a description of the predicate
    /// that the caller gives.
    fn where_by_with_model<P: Fn(&Self::Item) -> bool>(
        self,
        predicate: P,
        Ghost(model): Ghost<spec_fn(Self::Item) -> bool>,
    ) -> (adapter: QWhere<Self, P>)
        requires
            self.inv(),
            answers_all(predicate, model, self.remaining()),
        ensures
            adapter.inv(),
            adapter.remaining() == self.remaining().filter(model),
            adapter.upstream() == self.remaining(),
            adapter.model() == model,
    {
        QWhere::with_model(self, predicate, Ghost(model))
    }

    /// [`Enumerable::select`] in terms of a description of the projection
    /// that the caller gives.
    fn select_with_model<TResult, F: Fn(Self::Item) -> TResult>(
        self,
        f: F,
        Ghost(model): Ghost<spec_fn(Self::Item) -> TResult>,
    ) -> (adapter: SelectIterator<Self, F, TResult>)
        requires
            self.inv(),
            computes_all(f, model, self.remaining()),
        ensures
            adapter.inv(),
            adapter.remaining() == self.remaining().map_values(model),
            adapter.upstream() == self.remaining(),
    {
        SelectIterator::with_model(self, f, Ghost(model))
    }

    /// [`Enumerable::select_many_single`] in terms of a description of the
    /// inner sequences that the caller gives.
    fn select_many_single_with_model<TCollection: Queryable, F: Fn(Self::Item) -> TCollection>(
        self,
        f: F,
        Ghost(model): Ghost<spec_fn(Self::Item) -> Seq<TCollection::Item>>,
    ) -> (adapter: SelectManySingleIterator<Self, TCollection, F>)
        requires
            self.inv(),
            unfolds_all(f, model, self.remaining()),
        ensures
            adapter.inv(),
            adapter.remaining() == self.remaining().flat_map(model),
            adapter.upstream() == self.remaining(),
            adapter.current() == Seq::<TCollection::Item>::empty(),
            adapter.model() == model,
            !adapter.done(),
    {
        SelectManySingleIterator::with_model(self, f, Ghost(model))
    }

    /// [`Enumerable::select_many`] in terms of descriptions of the inner
    /// sequences and of the result selector that the caller gives.
    fn select_many_with_model<TResult, TCollection: Queryable, FC, FR>(
        self,
        fc: FC,
        fr: FR,
        Ghost(inner): Ghost<spec_fn(Self::Item) -> Seq<TCollection::Item>>,
        Ghost(combine): Ghost<spec_fn(Self::Item, TCollection::Item) -> TResult>,
    ) -> (adapter: SelectManyIterator<Self, TCollection, FC, FR, TResult>) where
        Self::Item: Clone,
        FC: Fn(Self::Item) -> TCollection,
        FR: Fn(Self::Item, TCollection::Item) -> TResult,

        requires
            self.inv(),
            joins_all(fc, fr, inner, combine, self.remaining()),
        ensures
            adapter.inv(),
            adapter.remaining() == self.remaining().flat_map(joined_fn(inner, combine)),
            adapter.upstream() == self.remaining(),
            adapter.current() == Seq::<TCollection::Item>::empty(),
            adapter.model() == inner,
            !adapter.done(),
    {
        SelectManyIterator::with_model(self, fc, fr, Ghost(inner), Ghost(combine))
    }

    /// [`Enumerable::zip_from`] in terms of a description of the inner
    /// sequences that the caller gives.
    fn zip_from_with_model<TCollection: Queryable, F>(
        self,
        f: F,
        Ghost(model): Ghost<spec_fn(Self::Item) -> Seq<TCollection::Item>>,
    ) -> (adapter: ZipFromIterator<Self, TCollection, F>) where
        Self::Item: Clone,
        F: Fn(&Self::Item) -> TCollection,

        requires
            self.inv(),
            zips_all(f, model, self.remaining()),
        ensures
            adapter.inv(),
            adapter.remaining() == self.remaining().flat_map(zipped_fn(model)),
            adapter.upstream() == self.remaining(),
            adapter.current() == Seq::<TCollection::Item>::empty(),
            adapter.model() == model,
            !adapter.done(),
    {
        ZipFromIterator::with_model(self, f, Ghost(model))
    }

    /// [`Enumerable::order_by`] in terms of a description of the key that
    /// the caller gives.
    fn order_by_with_model<TKey: Ord, F: Fn(&Self::Item) -> TKey>(
        self,
        f: F,
        Ghost(key): Ghost<spec_fn(Self::Item) -> TKey>,
    ) -> (adapter: OrderedIterator<Self::Item>)
        requires
            self.inv(),
            keys_as_all(f, key, self.remaining()),
            obeys_cmp::<TKey>(),
        ensures
            adapter.inv(),
            adapter.remaining() == stable_sort(self.remaining(), key_order(key)),
    {
        crate::order_by::order_by_with_model(self, f, false, Ghost(key))
    }

    /// [`Enumerable::order_by_descending`] in terms of a description of the
    /// key that the caller gives.
    fn order_by_descending_with_model<TKey: Ord, F: Fn(&Self::Item) -> TKey>(
        self,
        f: F,
        Ghost(key): Ghost<spec_fn(Self::Item) -> TKey>,
    ) -> (adapter: OrderedIterator<Self::Item>)
        requires
            self.inv(),
            keys_as_all(f, key, self.remaining()),
            obeys_cmp::<TKey>(),
        ensures
            adapter.inv(),
            adapter.remaining() == stable_sort(self.remaining(), key_order(key)).reverse(),
    {
        crate::order_by::order_by_with_model(self, f, true, Ghost(key))
    }

    /// [`Enumerable::aggregate`] in terms of a description of the
    /// accumulator function that the caller gives.
    fn aggregate_with_model<B, F: Fn(B, Self::Item) -> B>(
        self,
        init: B,
        f: F,
        Ghost(step): Ghost<spec_fn(B, Self::Item) -> B>,
    ) -> (result: B)
        requires
            self.inv(),
            folds_as(f, step, init, self.remaining()),
        ensures
            result == self.remaining().fold_left(init, step),
    {
        crate::reduce::aggregate_with_model(self, init, f, Ghost(step))
    }

    /// [`Enumerable::skip_while`] in terms of a description of the
    /// predicate that the caller gives.
    fn skip_while_with_model<P: Fn(&Self::Item) -> bool>(
        self,
        predicate: P,
        Ghost(model): Ghost<spec_fn(Self::Item) -> bool>,
    ) -> (adapter: QSkipWhile<Self, P>)
        requires
            self.inv(),
            answers_leading(predicate, model, self.remaining()),
        ensures
            adapter.inv(),
            adapter.remaining() == self.remaining().skip(leading(self.remaining(), model) as int),
            adapter.upstream() == self.remaining(),
            adapter.model() == model,
            adapter.skipping(),
    {
        QSkipWhile::with_model(self, predicate, Ghost(model))
    }

    /// [`Enumerable::take_while`] in terms of a description of the
    /// predicate that the caller gives.
    fn take_while_with_model<P: Fn(&Self::Item) -> bool>(
        self,
        predicate: P,
        Ghost(model): Ghost<spec_fn(Self::Item) -> bool>,
    ) -> (adapter: QTakeWhile<Self, P>)
        requires
            self.inv(),
            answers_leading(predicate, model, self.remaining()),
        ensures
            adapter.inv(),
            adapter.remaining() == self.remaining().take(leading(self.remaining(), model) as int),
            adapter.upstream() == self.remaining(),
            adapter.model() == model,
            adapter.taking(),
    {
        QTakeWhile::with_model(self, predicate, Ghost(model))
    }
}

impl<Q: Queryable> Enumerable for Q {

}

} // verus!
