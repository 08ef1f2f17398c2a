//! Filtering by a predicate.

use crate::model::{
    answers, answers_all, beyond, decides_all, holds_fn, lemma_answers_all_tail,
    lemma_beyond_head, lemma_decides_all_answers, lemma_filter_head,
};
use crate::queryable::{DoubleEndedQueryable, Queryable};
use vstd::prelude::*;

verus! {

/// Yields the elements of `query` on which `predicate` holds.
#[verifier::reject_recursive_types(Q)]
pub struct QWhere<Q: Queryable, P> {
    query: Q,
    predicate: P,
    model: Ghost<spec_fn(Q::Item) -> bool>,
}

impl<Q: Queryable, P: Fn(&Q::Item) -> bool> QWhere<Q, P> {
    /// The filter of `query` by `predicate`, in terms of what the contract of
    /// `predicate` fixes.
    pub fn new(query: Q, predicate: P) -> (adapter: Self)
        requires
            query.inv(),
            decides_all(predicate, query.remaining()),
        ensures
            adapter.inv(),
            adapter.remaining() == query.remaining().filter(holds_fn(predicate)),
            adapter.upstream() == query.remaining(),
            adapter.model() == holds_fn(predicate),
    {
        proof {
            lemma_decides_all_answers(predicate, query.remaining());
        }
        QWhere { query, predicate, model: Ghost(holds_fn(predicate)) }
    }

    /// The filter of `query` by `predicate`, in terms of a description of
    /// `predicate` that the caller gives.
    pub fn with_model(
        query: Q,
        predicate: P,
        Ghost(model): Ghost<spec_fn(Q::Item) -> bool>,
    ) -> (adapter: Self)
        requires
            query.inv(),
            answers_all(predicate, model, query.remaining()),
        ensures
            adapter.inv(),
            adapter.remaining() == query.remaining().filter(model),
            adapter.upstream() == query.remaining(),
            adapter.model() == model,
    {
        QWhere { query, predicate, model: Ghost(model) }
    }

    /// What the wrapped producer has yet to yield.
    pub closed spec fn upstream(&self) -> Seq<Q::Item> {
        self.query.remaining()
    }

    /// The description of the predicate.
    pub closed spec fn model(&self) -> spec_fn(Q::Item) -> bool {
        self.model@
    }
}

impl<Q: Queryable, P: Fn(&Q::Item) -> bool> Queryable for QWhere<Q, P> {
    type Item = Q::Item;

    closed spec fn inv(&self) -> bool {
        &&& self.query.inv()
        &&& answers_all(self.predicate, self.model@, self.query.remaining())
    }

    closed spec fn remaining(&self) -> Seq<Q::Item> {
        self.query.remaining().filter(self.model@)
    }

    /// Takes elements from the wrapped producer up to the first on which
    /// the predicate holds, and no more.
    fn next(&mut self) -> (item: Option<Q::Item>)
        ensures
            final(self).model() == old(self).model(),
            final(self).upstream() == beyond(old(self).upstream(), old(self).model()),
    {
        loop
            invariant
                self.inv(),
                self.remaining() == old(self).remaining(),
                self.model() == old(self).model(),
                beyond(self.upstream(), self.model()) == beyond(
                    old(self).upstream(),
                    old(self).model(),
                ),
            decreases self.query.remaining().len(),
        {
            let ghost before = self.query.remaining();
            proof {
                lemma_beyond_head(before, self.model@);
            }
            match self.query.next() {
                None => {
                    proof {
                        before.lemma_filter_len(self.model@);
                    }
                    return None;
                },
                Some(x) => {
                    proof {
                        lemma_answers_all_tail(self.predicate, self.model@, before);
                        lemma_filter_head(before, self.model@);
                    }
                    if (self.predicate)(&x) {
                        proof {
                            let rest = before.drop_first().filter(self.model@);
                            assert((seq![x] + rest).drop_first() =~= rest);
                        }
                        return Some(x);
                    }
                },
            }
        }
    }
}

impl<Q: DoubleEndedQueryable, P: Fn(&Q::Item) -> bool> DoubleEndedQueryable for QWhere<Q, P> {
    /// Takes elements from the tail of the wrapped producer down to the
    /// last on which the predicate holds, and no more.
    fn next_back(&mut self) -> (item: Option<Q::Item>)
        ensures
            final(self).model() == old(self).model(),
            final(self).upstream().reverse() == beyond(
                old(self).upstream().reverse(),
                old(self).model(),
            ),
    {
        loop
            invariant
                self.inv(),
                self.remaining() == old(self).remaining(),
                self.model() == old(self).model(),
                beyond(self.upstream().reverse(), self.model()) == beyond(
                    old(self).upstream().reverse(),
                    old(self).model(),
                ),
            decreases self.query.remaining().len(),
        {
            let ghost before = self.query.remaining();
            proof {
                reveal(Seq::filter);
                lemma_beyond_head(before.reverse(), self.model@);
                if before.len() > 0 {
                    assert(before.reverse().drop_first() =~= before.drop_last().reverse());
                } else {
                    assert(before.reverse() =~= before);
                }
            }
            match self.query.next_back() {
                None => {
                    return None;
                },
                Some(x) => {
                    proof {
                        assert(answers(self.predicate, self.model@, before[before.len() - 1]));
                        assert forall|i: int| 0 <= i < before.drop_last().len() implies answers(
                            self.predicate,
                            self.model@,
                            #[trigger] before.drop_last()[i],
                        ) by {
                            assert(before.drop_last()[i] == before[i]);
                        }
                    }
                    if (self.predicate)(&x) {
                        proof {
                            let rest = before.drop_last().filter(self.model@);
                            assert(rest.push(x).drop_last() =~= rest);
                        }
                        return Some(x);
                    }
                },
            }
        }
    }
}

/// Filters a sequence of values based on a predicate.
pub fn where_by<Q: Queryable, P: Fn(&Q::Item) -> bool>(query: Q, predicate: P) -> (adapter: QWhere<
    Q,
    P,
>)
    requires
        query.inv(),
        decides_all(predicate, query.remaining()),
    ensures
        adapter.inv(),
        adapter.remaining() == query.remaining().filter(holds_fn(predicate)),
        adapter.upstream() == query.remaining(),
        adapter.model() == holds_fn(predicate),
{
    QWhere::new(query, predicate)
}

} // verus!
