//! Flattening: every outer element unfolds into an inner sequence.

use crate::model::{
    beyond, expands_all, finds, found, inner_fn, lemma_beyond_head, lemma_flat_map_empty,
    lemma_flat_map_head, lemma_found_head, lemma_unfolds_all_tail, unfolds_all,
};
use crate::queryable::Queryable;
use vstd::prelude::*;

verus! {

/// Where a flattening adapter stands: it needs an outer element, it has an
/// inner producer to drain, together with what it retains of the outer
/// element that the producer came from, or it is done.
pub enum Stage<O, T> {
    NeedOuter,
    HaveInner(O, T),
    Done,
}

/// What the inner producer of a stage has yet to yield; nothing, if the
/// stage has none.
pub open spec fn pending<O, T: Queryable>(stage: Stage<O, T>) -> Seq<T::Item> {
    match stage {
        Stage::HaveInner(_, inner) => inner.remaining(),
        _ => Seq::empty(),
    }
}

/// The predicate that holds on the elements that `model` unfolds into at
/// least one element.
pub open spec fn yielding<A, B>(model: spec_fn(A) -> Seq<B>) -> spec_fn(A) -> bool {
    |x: A| model(x).len() > 0
}

/// What is left of the inner sequence of the first element of `outer` that
/// unfolds into anything, once its first element has been taken.
pub open spec fn entered<A, B>(outer: Seq<A>, model: spec_fn(A) -> Seq<B>) -> Seq<B> {
    if finds(outer, yielding(model)) {
        model(found(outer, yielding(model))).drop_first()
    } else {
        Seq::empty()
    }
}

/// Yields, for each element of `iter` in turn, all the elements of the
/// producer that `func` makes of it.
///
/// The adapter is a state machine. When it needs an outer element it takes
/// one from `iter` and unfolds it; when it has an inner producer it drains
/// that producer, and discards it once it is exhausted. It is done when it
/// needs an outer element and `iter` has none; from then on it asks `iter`
/// no more.
#[verifier::reject_recursive_types(I)]
#[verifier::reject_recursive_types(T)]
pub struct ExpansionIterator<I: Queryable, T: Queryable, F> {
    iter: I,
    stage: Stage<(), T>,
    func: F,
    model: Ghost<spec_fn(I::Item) -> Seq<T::Item>>,
}

impl<I: Queryable, T: Queryable, F: Fn(I::Item) -> T> ExpansionIterator<I, T, F> {
    /// The flattening of `iter` by `func`, in terms of a description of the
    /// inner sequences that the caller gives.
    pub fn with_model(
        iter: I,
        func: F,
        Ghost(model): Ghost<spec_fn(I::Item) -> Seq<T::Item>>,
    ) -> (adapter: Self)
        requires
            iter.inv(),
            unfolds_all(func, model, iter.remaining()),
        ensures
            adapter.inv(),
            adapter.remaining() == iter.remaining().flat_map(model),
            adapter.upstream() == iter.remaining(),
            adapter.current() == Seq::<T::Item>::empty(),
            adapter.model() == model,
            !adapter.done(),
    {
        let adapter = ExpansionIterator {
            iter,
            stage: Stage::NeedOuter,
            func,
            model: Ghost(model),
        };
        assert(pending(adapter.stage) + iter.remaining().flat_map(model)
            =~= iter.remaining().flat_map(model));
        adapter
    }

    /// What the wrapped outer producer has yet to yield.
    pub closed spec fn upstream(&self) -> Seq<I::Item> {
        self.iter.remaining()
    }

    /// What the current inner producer has yet to yield; nothing, if there
    /// is none.
    pub closed spec fn current(&self) -> Seq<T::Item> {
        pending(self.stage)
    }

    /// Whether the adapter has found the outer producer exhausted.
    pub closed spec fn done(&self) -> bool {
        self.stage is Done
    }

    /// The description of the inner sequences.
    pub closed spec fn model(&self) -> spec_fn(I::Item) -> Seq<T::Item> {
        self.model@
    }
}

impl<I: Queryable, T: Queryable, F: Fn(I::Item) -> T> Queryable for ExpansionIterator<I, T, F> {
    type Item = T::Item;

    closed spec fn inv(&self) -> bool {
        &&& self.iter.inv()
        &&& self.stage matches Stage::HaveInner(_, inner) ==> inner.inv()
        &&& self.stage is Done ==> self.iter.remaining().len() == 0
        &&& unfolds_all(self.func, self.model@, self.iter.remaining())
    }

    closed spec fn remaining(&self) -> Seq<T::Item> {
        pending(self.stage) + self.iter.remaining().flat_map(self.model@)
    }

    /// Takes the next element of the current inner producer and leaves the
    /// outer producer alone, as long as the inner producer has an element.
    /// Once it has none, takes elements from the outer producer up to the
    /// first that unfolds into anything, and no more, and the first element
    /// of what that one unfolds into. It is done once it has yielded
    /// nothing.
    fn next(&mut self) -> (item: Option<T::Item>)
        ensures
            final(self).model() == old(self).model(),
            final(self).done() == (item is None),
            old(self).current().len() > 0 ==> {
                &&& final(self).upstream() == old(self).upstream()
                &&& final(self).current() == old(self).current().drop_first()
            },
            old(self).current().len() == 0 ==> {
                &&& final(self).upstream() == beyond(
                    old(self).upstream(),
                    yielding(old(self).model()),
                )
                &&& final(self).current() == entered(old(self).upstream(), old(self).model())
            },
    {
        let ghost wanted = yielding(self.model@);
        loop
            invariant
                self.inv(),
                self.remaining() == old(self).remaining(),
                self.model() == old(self).model(),
                wanted == yielding(old(self).model()),
                self.current().len() > 0 ==> {
                    ||| {
                        &&& old(self).current().len() > 0
                        &&& self.upstream() == old(self).upstream()
                        &&& self.current() == old(self).current()
                    }
                    ||| {
                        &&& old(self).current().len() == 0
                        &&& self.upstream() == beyond(old(self).upstream(), wanted)
                        &&& finds(old(self).upstream(), wanted)
                        &&& self.current() == self.model()(found(old(self).upstream(), wanted))
                    }
                },
                self.current().len() == 0 ==> {
                    &&& old(self).current().len() == 0
                    &&& beyond(self.upstream(), wanted) == beyond(old(self).upstream(), wanted)
                    &&& finds(self.upstream(), wanted) == finds(old(self).upstream(), wanted)
                    &&& finds(self.upstream(), wanted) ==> found(self.upstream(), wanted) == found(
                        old(self).upstream(),
                        wanted,
                    )
                },
            decreases
                    self.iter.remaining().len(),
                    if self.stage is HaveInner { 1int } else { 0int },
        {
            let ghost outer = self.iter.remaining();
            let ghost flat = outer.flat_map(self.model@);
            match &mut self.stage {
                Stage::HaveInner(_, cit) => {
                    let ghost inner = cit.remaining();
                    match cit.next() {
                        Some(x) => {
                            assert((inner + flat).drop_first() =~= inner.drop_first() + flat);
                            return Some(x);
                        },
                        None => {
                            assert(inner + flat =~= Seq::<T::Item>::empty() + flat);
                            self.stage = Stage::NeedOuter;
                        },
                    }
                },
                Stage::NeedOuter => {
                    proof {
                        lemma_beyond_head(outer, wanted);
                    }
                    match self.iter.next() {
                        Some(tit) => {
                            proof {
                                lemma_flat_map_head(outer, self.model@);
                                lemma_unfolds_all_tail(self.func, self.model@, outer);
                                lemma_found_head(outer, wanted);
                            }
                            self.stage = Stage::HaveInner((), (self.func)(tit));
                            assert(Seq::<T::Item>::empty() + flat =~= flat);
                        },
                        None => {
                            proof {
                                lemma_flat_map_empty(outer, self.model@);
                            }
                            self.stage = Stage::Done;
                            return None;
                        },
                    }
                },
                Stage::Done => {
                    proof {
                        lemma_beyond_head(outer, wanted);
                        lemma_flat_map_empty(outer, self.model@);
                    }
                    return None;
                },
            }
        }
    }
}

/// Projects each element of a sequence to a producer and flattens the
/// resulting sequences into one.
pub fn expansion<I: Queryable, T: Queryable, F: Fn(I::Item) -> T>(iter: I, func: F) -> (adapter:
    ExpansionIterator<I, T, F>)
    requires
        iter.inv(),
        expands_all(func, iter.remaining()),
    ensures
        adapter.inv(),
        adapter.remaining() == iter.remaining().flat_map(inner_fn(func)),
        adapter.upstream() == iter.remaining(),
        adapter.current() == Seq::<T::Item>::empty(),
        adapter.model() == inner_fn(func),
        !adapter.done(),
{
    ExpansionIterator::with_model(iter, func, Ghost(inner_fn(func)))
}

} // verus!
