//! Flattening with a result selector, and plain flattening under its
//! query name.

use crate::expansion::{entered, pending, yielding, ExpansionIterator, Stage};
use crate::model::{
    beyond, combined_fn, combines_all, copies, expands, expands_all, finds, found, inner_fn,
    inner_seq, lemma_beyond_head, lemma_combines_all_pairs, lemma_flat_map_empty,
    lemma_flat_map_head, lemma_found_head, pairs, pairs_all, unfolds, unfolds_all,
};
use crate::queryable::Queryable;
use vstd::prelude::*;

verus! {

/// `fc` unfolds `x` as `inner` does, `x` can be cloned exactly, and `fr`
/// pairs `x` with every element of `inner(x)` as `combine` does.
pub open spec fn joins<A: Clone, T: Queryable, R, FC: Fn(A) -> T, FR: Fn(A, T::Item) -> R>(
    fc: FC,
    fr: FR,
    inner: spec_fn(A) -> Seq<T::Item>,
    combine: spec_fn(A, T::Item) -> R,
    x: A,
) -> bool {
    &&& unfolds(fc, inner, x)
    &&& copies(x)
    &&& pairs_all(fr, combine, x, inner(x))
}

/// `fc` and `fr` join every element of `s` as `inner` and `combine` do.
pub open spec fn joins_all<A: Clone, T: Queryable, R, FC: Fn(A) -> T, FR: Fn(A, T::Item) -> R>(
    fc: FC,
    fr: FR,
    inner: spec_fn(A) -> Seq<T::Item>,
    combine: spec_fn(A, T::Item) -> R,
    s: Seq<A>,
) -> bool {
    forall|i: int| 0 <= i < s.len() ==> joins(fc, fr, inner, combine, #[trigger] s[i])
}

/// `fc` expands `x`, `x` can be cloned exactly, and `fr` combines `x` with
/// every element that `x` expands into.
pub open spec fn selects<A: Clone, T: Queryable, R, FC: Fn(A) -> T, FR: Fn(A, T::Item) -> R>(
    fc: FC,
    fr: FR,
    x: A,
) -> bool {
    &&& expands(fc, x)
    &&& copies(x)
    &&& combines_all(fr, x, inner_seq(fc, x))
}

/// `fc` and `fr` select from every element of `s`.
pub open spec fn selects_all<A: Clone, T: Queryable, R, FC: Fn(A) -> T, FR: Fn(A, T::Item) -> R>(
    fc: FC,
    fr: FR,
    s: Seq<A>,
) -> bool {
    forall|i: int| 0 <= i < s.len() ==> selects(fc, fr, #[trigger] s[i])
}

/// `outer` combined with every element of `s`.
pub open spec fn combined_with<A, B, R>(combine: spec_fn(A, B) -> R, outer: A, s: Seq<B>) -> Seq<
    R,
> {
    s.map_values(|y: B| combine(outer, y))
}

/// What one outer element contributes: itself combined with each element it
/// unfolds into.
pub open spec fn joined_fn<A, B, R>(
    inner: spec_fn(A) -> Seq<B>,
    combine: spec_fn(A, B) -> R,
) -> spec_fn(A) -> Seq<R> {
    |x: A| combined_with(combine, x, inner(x))
}

/// What the retained outer element and its inner producer have yet to
/// contribute.
pub open spec fn pending_joined<A, T: Queryable, R>(
    combine: spec_fn(A, T::Item) -> R,
    stage: Stage<A, T>,
) -> Seq<R> {
    match stage {
        Stage::HaveInner(outer, inner) => combined_with(combine, outer, inner.remaining()),
        _ => Seq::empty(),
    }
}

/// Yields, for each element of `iter` in turn, that element combined by `fr`
/// with every element of the producer that `fc` makes of it.
///
/// The state machine is that of [`ExpansionIterator`], with a clone of the
/// outer element retained beside its inner producer.
#[verifier::reject_recursive_types(I)]
#[verifier::reject_recursive_types(T)]
#[verifier::reject_recursive_types(R)]
pub struct SelectManyIterator<I: Queryable, T: Queryable, FC, FR, R> {
    iter: I,
    stage: Stage<I::Item, T>,
    fc: FC,
    fr: FR,
    inner: Ghost<spec_fn(I::Item) -> Seq<T::Item>>,
    combine: Ghost<spec_fn(I::Item, T::Item) -> R>,
}

impl<I: Queryable, T: Queryable, FC, FR, R> SelectManyIterator<I, T, FC, FR, R> where
    I::Item: Clone,
    FC: Fn(I::Item) -> T,
    FR: Fn(I::Item, T::Item) -> R,
 {
    /// The flattening of `iter` by `fc` with the result selector `fr`, in
    /// terms of descriptions of the two that the caller gives.
    pub fn with_model(
        iter: I,
        fc: FC,
        fr: FR,
        Ghost(inner): Ghost<spec_fn(I::Item) -> Seq<T::Item>>,
        Ghost(combine): Ghost<spec_fn(I::Item, T::Item) -> R>,
    ) -> (adapter: Self)
        requires
            iter.inv(),
            joins_all(fc, fr, inner, combine, iter.remaining()),
        ensures
            adapter.inv(),
            adapter.remaining() == iter.remaining().flat_map(joined_fn(inner, combine)),
            adapter.upstream() == iter.remaining(),
            adapter.current() == Seq::<T::Item>::empty(),
            adapter.model() == inner,
            !adapter.done(),
    {
        let adapter = SelectManyIterator {
            iter,
            stage: Stage::NeedOuter,
            fc,
            fr,
            inner: Ghost(inner),
            combine: Ghost(combine),
        };
        assert(Seq::<R>::empty() + iter.remaining().flat_map(joined_fn(inner, combine))
            =~= iter.remaining().flat_map(joined_fn(inner, combine)));
        adapter
    }

    /// What the wrapped outer producer has yet to yield.
    pub closed spec fn upstream(&self) -> Seq<I::Item> {
        self.iter.remaining()
    }

    /// What the current inner producer has yet to yield; nothing, if there
    /// is none.
    pub closed spec fn current(&self) -> Seq<T::Item> {
        pending(self.stage)
    }

    /// Whether the adapter has found the outer producer exhausted.
    pub closed spec fn done(&self) -> bool {
        self.stage is Done
    }

    /// The description of the inner sequences.
    pub closed spec fn model(&self) -> spec_fn(I::Item) -> Seq<T::Item> {
        self.inner@
    }
}

impl<I: Queryable, T: Queryable, FC, FR, R> Queryable for SelectManyIterator<I, T, FC, FR, R> where
    I::Item: Clone,
    FC: Fn(I::Item) -> T,
    FR: Fn(I::Item, T::Item) -> R,
 {
    type Item = R;

    closed spec fn inv(&self) -> bool {
        &&& self.iter.inv()
        &&& joins_all(self.fc, self.fr, self.inner@, self.combine@, self.iter.remaining())
        &&& self.stage matches Stage::HaveInner(outer, inner) ==> {
            &&& inner.inv()
            &&& copies(outer)
            &&& pairs_all(self.fr, self.combine@, outer, inner.remaining())
        }
        &&& self.stage is Done ==> self.iter.remaining().len() == 0
    }

    closed spec fn remaining(&self) -> Seq<R> {
        pending_joined(self.combine@, self.stage) + self.iter.remaining().flat_map(
            joined_fn(self.inner@, self.combine@),
        )
    }

    /// Takes the next element of the current inner producer and leaves the
    /// outer producer alone, as long as the inner producer has an element.
    /// Once it has none, takes elements from the outer producer up to the
    /// first that unfolds into anything, and no more, and the first element
    /// of what that one unfolds into. It is done once it has yielded
    /// nothing.
    fn next(&mut self) -> (item: Option<R>)
        ensures
            final(self).model() == old(self).model(),
            final(self).done() == (item is None),
            old(self).current().len() > 0 ==> {
                &&& final(self).upstream() == old(self).upstream()
                &&& final(self).current() == old(self).current().drop_first()
            },
            old(self).current().len() == 0 ==> {
                &&& final(self).upstream() == beyond(
                    old(self).upstream(),
                    yielding(old(self).model()),
                )
                &&& final(self).current() == entered(old(self).upstream(), old(self).model())
            },
    {
        let ghost wanted = yielding(self.inner@);
        loop
            invariant
                self.inv(),
                self.remaining() == old(self).remaining(),
                self.model() == old(self).model(),
                wanted == yielding(old(self).model()),
                self.current().len() > 0 ==> {
                    ||| {
                        &&& old(self).current().len() > 0
                        &&& self.upstream() == old(self).upstream()
                        &&& self.current() == old(self).current()
                    }
                    ||| {
                        &&& old(self).current().len() == 0
                        &&& self.upstream() == beyond(old(self).upstream(), wanted)
                        &&& finds(old(self).upstream(), wanted)
                        &&& self.current() == self.model()(found(old(self).upstream(), wanted))
                    }
                },
                self.current().len() == 0 ==> {
                    &&& old(self).current().len() == 0
                    &&& beyond(self.upstream(), wanted) == beyond(old(self).upstream(), wanted)
                    &&& finds(self.upstream(), wanted) == finds(old(self).upstream(), wanted)
                    &&& finds(self.upstream(), wanted) ==> found(self.upstream(), wanted) == found(
                        old(self).upstream(),
                        wanted,
                    )
                },
            decreases
                    self.iter.remaining().len(),
                    if self.stage is HaveInner { 1int } else { 0int },
        {
            let ghost outer = self.iter.remaining();
            let ghost each = joined_fn(self.inner@, self.combine@);
            let ghost flat = outer.flat_map(each);
            let ghost held = pending_joined(self.combine@, self.stage);
            match &mut self.stage {
                Stage::HaveInner(outer_item, cit) => {
                    let ghost inner = cit.remaining();
                    let ghost retained = *outer_item;
                    match cit.next() {
                        Some(x) => {
                            let kept = outer_item.clone();
                            assert(kept == retained);
                            assert(pairs(self.fr, self.combine@, kept, inner[0]));
                            let r = (self.fr)(kept, x);
                            proof {
                                let now = combined_with(self.combine@, kept, inner.drop_first());
                                assert(held.drop_first() =~= now);
                                assert((held + flat).drop_first() =~= now + flat);
                                assert forall|j: int|
                                    0 <= j < inner.drop_first().len() implies pairs(
                                    self.fr,
                                    self.combine@,
                                    kept,
                                    #[trigger] inner.drop_first()[j],
                                ) by {
                                    assert(inner.drop_first()[j] == inner[j + 1]);
                                }
                            }
                            return Some(r);
                        },
                        None => {
                            assert(held + flat =~= Seq::<R>::empty() + flat);
                            self.stage = Stage::NeedOuter;
                        },
                    }
                },
                Stage::NeedOuter => {
                    proof {
                        lemma_beyond_head(outer, wanted);
                    }
                    match self.iter.next() {
                        Some(outer_item) => {
                            proof {
                                lemma_flat_map_head(outer, each);
                                lemma_found_head(outer, wanted);
                                assert(joins(
                                    self.fc,
                                    self.fr,
                                    self.inner@,
                                    self.combine@,
                                    outer[0],
                                ));
                                assert forall|i: int|
                                    0 <= i < outer.drop_first().len() implies joins(
                                    self.fc,
                                    self.fr,
                                    self.inner@,
                                    self.combine@,
                                    #[trigger] outer.drop_first()[i],
                                ) by {
                                    assert(outer.drop_first()[i] == outer[i + 1]);
                                }
                            }
                            let kept = outer_item.clone();
                            self.stage = Stage::HaveInner(kept, (self.fc)(outer_item));
                            assert(Seq::<R>::empty() + flat =~= flat);
                        },
                        None => {
                            proof {
                                lemma_flat_map_empty(outer, each);
                            }
                            self.stage = Stage::Done;
                            return None;
                        },
                    }
                },
                Stage::Done => {
                    proof {
                        lemma_beyond_head(outer, wanted);
                        lemma_flat_map_empty(outer, each);
                    }
                    return None;
                },
            }
        }
    }
}

/// Projects each element of a sequence to a producer, flattens the
/// resulting sequences into one, and invokes a result selector on each
/// element therein together with the element that it came from.
pub fn select_many<I: Queryable, T: Queryable, FC, FR, R>(iter: I, fc: FC, fr: FR) -> (adapter:
    SelectManyIterator<I, T, FC, FR, R>) where
    I::Item: Clone,
    FC: Fn(I::Item) -> T,
    FR: Fn(I::Item, T::Item) -> R,

    requires
        iter.inv(),
        selects_all(fc, fr, iter.remaining()),
    ensures
        adapter.inv(),
        adapter.remaining() == iter.remaining().flat_map(
            joined_fn(inner_fn(fc), combined_fn(fr)),
        ),
        adapter.upstream() == iter.remaining(),
        adapter.current() == Seq::<T::Item>::empty(),
        adapter.model() == inner_fn(fc),
        !adapter.done(),
{
    proof {
        let s = iter.remaining();
        assert forall|i: int| 0 <= i < s.len() implies joins(
            fc,
            fr,
            inner_fn(fc),
            combined_fn(fr),
            #[trigger] s[i],
        ) by {
            assert(selects(fc, fr, s[i]));
            lemma_combines_all_pairs(fr, s[i], inner_seq(fc, s[i]));
        }
    }
    SelectManyIterator::with_model(iter, fc, fr, Ghost(inner_fn(fc)), Ghost(combined_fn(fr)))
}

/// Flattening under its query name: the elements of the inner sequences as
/// they are.
#[verifier::reject_recursive_types(I)]
#[verifier::reject_recursive_types(T)]
pub struct SelectManySingleIterator<I: Queryable, T: Queryable, F> {
    flat: ExpansionIterator<I, T, F>,
}

impl<I: Queryable, T: Queryable, F: Fn(I::Item) -> T> SelectManySingleIterator<I, T, F> {
    /// The flattening of `iter` by `func`, in terms of a description of the
    /// inner sequences that the caller gives.
    pub fn with_model(
        iter: I,
        func: F,
        Ghost(model): Ghost<spec_fn(I::Item) -> Seq<T::Item>>,
    ) -> (adapter: Self)
        requires
            iter.inv(),
            unfolds_all(func, model, iter.remaining()),
        ensures
            adapter.inv(),
            adapter.remaining() == iter.remaining().flat_map(model),
            adapter.upstream() == iter.remaining(),
            adapter.current() == Seq::<T::Item>::empty(),
            adapter.model() == model,
            !adapter.done(),
    {
        SelectManySingleIterator { flat: ExpansionIterator::with_model(iter, func, Ghost(model)) }
    }

    /// Whether the adapter has found the outer producer exhausted.
    pub closed spec fn done(&self) -> bool {
        self.flat.done()
    }

    /// What the wrapped outer producer has yet to yield.
    pub closed spec fn upstream(&self) -> Seq<I::Item> {
        self.flat.upstream()
    }

    /// What the current inner producer has yet to yield; nothing, if there
    /// is none.
    pub closed spec fn current(&self) -> Seq<T::Item> {
        self.flat.current()
    }

    /// The description of the inner sequences.
    pub closed spec fn model(&self) -> spec_fn(I::Item) -> Seq<T::Item> {
        self.flat.model()
    }
}

impl<I: Queryable, T: Queryable, F: Fn(I::Item) -> T> Queryable for SelectManySingleIterator<
    I,
    T,
    F,
> {
    type Item = T::Item;

    closed spec fn inv(&self) -> bool {
        self.flat.inv()
    }

    closed spec fn remaining(&self) -> Seq<T::Item> {
        self.flat.remaining()
    }

    /// Takes the next element of the current inner producer and leaves the
    /// outer producer alone, as long as the inner producer has an element.
    /// Once it has none, takes elements from the outer producer up to the
    /// first that unfolds into anything, and no more, and the first element
    /// of what that one unfolds into. It is done once it has yielded
    /// nothing.
    fn next(&mut self) -> (item: Option<T::Item>)
        ensures
            final(self).model() == old(self).model(),
            final(self).done() == (item is None),
            old(self).current().len() > 0 ==> {
                &&& final(self).upstream() == old(self).upstream()
                &&& final(self).current() == old(self).current().drop_first()
            },
            old(self).current().len() == 0 ==> {
                &&& final(self).upstream() == beyond(
                    old(self).upstream(),
                    yielding(old(self).model()),
                )
                &&& final(self).current() == entered(old(self).upstream(), old(self).model())
            },
    {
        self.flat.next()
    }
}

/// Projects each element of a sequence to a producer and flattens the
/// resulting sequences into one sequence.
pub fn select_many_single<I: Queryable, T: Queryable, F: Fn(I::Item) -> T>(
    iter: I,
    func: F,
) -> (adapter: SelectManySingleIterator<I, T, F>)
    requires
        iter.inv(),
        expands_all(func, iter.remaining()),
    ensures
        adapter.inv(),
        adapter.remaining() == iter.remaining().flat_map(inner_fn(func)),
        adapter.upstream() == iter.remaining(),
        adapter.current() == Seq::<T::Item>::empty(),
        adapter.model() == inner_fn(func),
        !adapter.done(),
{
    SelectManySingleIterator::with_model(iter, func, Ghost(inner_fn(func)))
}

} // verus!
