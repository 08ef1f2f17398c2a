//! Flattening into pairs of outer and inner element.

use crate::expansion::{entered, pending, yielding, Stage};
use crate::model::{
    beyond, copies, finds, found, lemma_beyond_head, lemma_flat_map_empty, lemma_flat_map_head,
    lemma_found_head,
};
use crate::queryable::Queryable;
use vstd::prelude::*;

verus! {

/// `f` may be called on `x`; every producer that its contract allows is well
/// formed and yields what `model` gives; `x` can be cloned exactly.
pub open spec fn zips<A: Clone, T: Queryable, F: Fn(&A) -> T>(
    f: F,
    model: spec_fn(A) -> Seq<T::Item>,
    x: A,
) -> bool {
    &&& call_requires(f, (&x,))
    &&& forall|t: T| call_ensures(f, (&x,), t) ==> t.inv() && t.remaining() == model(x)
    &&& copies(x)
}

/// `f` zips every element of `s` as `model` does.
pub open spec fn zips_all<A: Clone, T: Queryable, F: Fn(&A) -> T>(
    f: F,
    model: spec_fn(A) -> Seq<T::Item>,
    s: Seq<A>,
) -> bool {
    forall|i: int| 0 <= i < s.len() ==> zips(f, model, #[trigger] s[i])
}

/// What the producer that `f` makes for `x` yields, as the contract of `f`
/// fixes it.
pub open spec fn zipped_inner<A, T: Queryable, F: Fn(&A) -> T>(f: F, x: A) -> Seq<T::Item> {
    (choose|t: T| call_ensures(f, (&x,), t)).remaining()
}

/// The inner sequences of `f` as a mathematical function.
pub open spec fn zipped_inner_fn<A, T: Queryable, F: Fn(&A) -> T>(f: F) -> spec_fn(A) -> Seq<
    T::Item,
> {
    |x: A| zipped_inner(f, x)
}

/// `outer` paired with every element of `inner`.
pub open spec fn paired<A, B>(outer: A, inner: Seq<B>) -> Seq<(A, B)> {
    inner.map_values(|y: B| (outer, y))
}

/// What one outer element contributes: itself paired with each element it
/// unfolds into.
pub open spec fn zipped_fn<A, B>(model: spec_fn(A) -> Seq<B>) -> spec_fn(A) -> Seq<(A, B)> {
    |x: A| paired(x, model(x))
}

/// What the retained outer element and its inner producer have yet to
/// contribute.
pub open spec fn pending_paired<A, T: Queryable>(stage: Stage<A, T>) -> Seq<(A, T::Item)> {
    match stage {
        Stage::HaveInner(outer, inner) => paired(outer, inner.remaining()),
        _ => Seq::empty(),
    }
}

/// Yields, for each element of `iter` in turn, the pair of that element and
/// every element of the producer that `func` makes of it.
///
/// The state machine is that of [`crate::expansion::ExpansionIterator`],
/// with the outer element retained beside its inner producer.
#[verifier::reject_recursive_types(I)]
#[verifier::reject_recursive_types(T)]
pub struct ZipFromIterator<I: Queryable, T: Queryable, F> {
    iter: I,
    stage: Stage<I::Item, T>,
    func: F,
    model: Ghost<spec_fn(I::Item) -> Seq<T::Item>>,
}

impl<I: Queryable, T: Queryable, F> ZipFromIterator<I, T, F> where
    I::Item: Clone,
    F: Fn(&I::Item) -> T,
 {
    /// The pairing of `iter` with what `func` makes of its elements, in
    /// terms of a description of the inner sequences that the caller gives.
    pub fn with_model(
        iter: I,
        func: F,
        Ghost(model): Ghost<spec_fn(I::Item) -> Seq<T::Item>>,
    ) -> (adapter: Self)
        requires
            iter.inv(),
            zips_all(func, model, iter.remaining()),
        ensures
            adapter.inv(),
            adapter.remaining() == iter.remaining().flat_map(zipped_fn(model)),
            adapter.upstream() == iter.remaining(),
            adapter.current() == Seq::<T::Item>::empty(),
            adapter.model() == model,
            !adapter.done(),
    {
        let adapter = ZipFromIterator { iter, stage: Stage::NeedOuter, func, model: Ghost(model) };
        assert(Seq::<(I::Item, T::Item)>::empty() + iter.remaining().flat_map(zipped_fn(model))
            =~= iter.remaining().flat_map(zipped_fn(model)));
        adapter
    }

    /// What the wrapped outer producer has yet to yield.
    pub closed spec fn upstream(&self) -> Seq<I::Item> {
        self.iter.remaining()
    }

    /// What the current inner producer has yet to yield; nothing, if there
    /// is none.
    pub closed spec fn current(&self) -> Seq<T::Item> {
        pending(self.stage)
    }

    /// Whether the adapter has found the outer producer exhausted.
    pub closed spec fn done(&self) -> bool {
        self.stage is Done
    }

    /// The description of the inner sequences.
    pub closed spec fn model(&self) -> spec_fn(I::Item) -> Seq<T::Item> {
        self.model@
    }
}

impl<I: Queryable, T: Queryable, F> Queryable for ZipFromIterator<I, T, F> where
    I::Item: Clone,
    F: Fn(&I::Item) -> T,
 {
    type Item = (I::Item, T::Item);

    closed spec fn inv(&self) -> bool {
        &&& self.iter.inv()
        &&& zips_all(self.func, self.model@, self.iter.remaining())
        &&& self.stage matches Stage::HaveInner(outer, inner) ==> inner.inv() && copies(outer)
        &&& self.stage is Done ==> self.iter.remaining().len() == 0
    }

    closed spec fn remaining(&self) -> Seq<(I::Item, T::Item)> {
        pending_paired(self.stage) + self.iter.remaining().flat_map(zipped_fn(self.model@))
    }

    /// Takes the next element of the current inner producer and leaves the
    /// outer producer alone, as long as the inner producer has an element.
    /// Once it has none, takes elements from the outer producer up to the
    /// first that unfolds into anything, and no more, and the first element
    /// of what that one unfolds into. It is done once it has yielded
    /// nothing.
    fn next(&mut self) -> (item: Option<(I::Item, T::Item)>)
        ensures
            final(self).model() == old(self).model(),
            final(self).done() == (item is None),
            old(self).current().len() > 0 ==> {
                &&& final(self).upstream() == old(self).upstream()
                &&& final(self).current() == old(self).current().drop_first()
            },
            old(self).current().len() == 0 ==> {
                &&& final(self).upstream() == beyond(
                    old(self).upstream(),
                    yielding(old(self).model()),
                )
                &&& final(self).current() == entered(old(self).upstream(), old(self).model())
            },
    {
        let ghost wanted = yielding(self.model@);
        loop
            invariant
                self.inv(),
                self.remaining() == old(self).remaining(),
                self.model() == old(self).model(),
                wanted == yielding(old(self).model()),
                self.current().len() > 0 ==> {
                    ||| {
                        &&& old(self).current().len() > 0
                        &&& self.upstream() == old(self).upstream()
                        &&& self.current() == old(self).current()
                    }
                    ||| {
                        &&& old(self).current().len() == 0
                        &&& self.upstream() == beyond(old(self).upstream(), wanted)
                        &&& finds(old(self).upstream(), wanted)
                        &&& self.current() == self.model()(found(old(self).upstream(), wanted))
                    }
                },
                self.current().len() == 0 ==> {
                    &&& old(self).current().len() == 0
                    &&& beyond(self.upstream(), wanted) == beyond(old(self).upstream(), wanted)
                    &&& finds(self.upstream(), wanted) == finds(old(self).upstream(), wanted)
                    &&& finds(self.upstream(), wanted) ==> found(self.upstream(), wanted) == found(
                        old(self).upstream(),
                        wanted,
                    )
                },
            decreases
                    self.iter.remaining().len(),
                    if self.stage is HaveInner { 1int } else { 0int },
        {
            let ghost outer = self.iter.remaining();
            let ghost each = zipped_fn(self.model@);
            let ghost flat = outer.flat_map(each);
            let ghost held = pending_paired(self.stage);
            match &mut self.stage {
                Stage::HaveInner(outer_item, cit) => {
                    let ghost inner = cit.remaining();
                    let ghost retained = *outer_item;
                    match cit.next() {
                        Some(x) => {
                            let kept = outer_item.clone();
                            proof {
                                assert(kept == retained);
                                let now = paired(kept, inner.drop_first());
                                assert(held.drop_first() =~= now);
                                assert((held + flat).drop_first() =~= now + flat);
                            }
                            return Some((kept, x));
                        },
                        None => {
                            assert(held + flat =~= Seq::<(I::Item, T::Item)>::empty() + flat);
                            self.stage = Stage::NeedOuter;
                        },
                    }
                },
                Stage::NeedOuter => {
                    proof {
                        lemma_beyond_head(outer, wanted);
                    }
                    match self.iter.next() {
                        Some(outer_item) => {
                            proof {
                                lemma_flat_map_head(outer, each);
                                lemma_found_head(outer, wanted);
                                assert(zips(self.func, self.model@, outer[0]));
                                assert forall|i: int|
                                    0 <= i < outer.drop_first().len() implies zips(
                                    self.func,
                                    self.model@,
                                    #[trigger] outer.drop_first()[i],
                                ) by {
                                    assert(outer.drop_first()[i] == outer[i + 1]);
                                }
                            }
                            let inner = (self.func)(&outer_item);
                            self.stage = Stage::HaveInner(outer_item, inner);
                            assert(Seq::<(I::Item, T::Item)>::empty() + flat =~= flat);
                        },
                        None => {
                            proof {
                                lemma_flat_map_empty(outer, each);
                            }
                            self.stage = Stage::Done;
                            return None;
                        },
                    }
                },
                Stage::Done => {
                    proof {
                        lemma_beyond_head(outer, wanted);
                        lemma_flat_map_empty(outer, each);
                    }
                    return None;
                },
            }
        }
    }
}

/// Projects each element of a sequence to a producer and flattens the
/// resulting sequences into one sequence of pairs: the element, and one
/// element that it was projected to.
pub fn zip_from<I: Queryable, T: Queryable, F>(iter: I, func: F) -> (adapter: ZipFromIterator<
    I,
    T,
    F,
>) where I::Item: Clone, F: Fn(&I::Item) -> T
    requires
        iter.inv(),
        zips_all(func, zipped_inner_fn(func), iter.remaining()),
    ensures
        adapter.inv(),
        adapter.remaining() == iter.remaining().flat_map(zipped_fn(zipped_inner_fn(func))),
        adapter.upstream() == iter.remaining(),
        adapter.current() == Seq::<T::Item>::empty(),
        adapter.model() == zipped_inner_fn(func),
        !adapter.done(),
{
    ZipFromIterator::with_model(iter, func, Ghost(zipped_inner_fn(func)))
}

} // verus!
