//! What follows the leading elements on which a predicate holds.

use crate::model::{beyond, holds_fn, lemma_beyond_head, not_fn};
use crate::queryable::Queryable;
use crate::take_while::{
    answers_leading, decides_leading, leading, lemma_answers_leading_tail,
    lemma_decides_leading_answers, lemma_leading_bound,
};
use vstd::prelude::*;

verus! {

/// Drops the elements of `query` up to the first on which `predicate` does
/// not hold, and yields that one and all that follow.
#[verifier::reject_recursive_types(Q)]
pub struct QSkipWhile<Q: Queryable, P> {
    query: Q,
    flag: bool,
    predicate: P,
    model: Ghost<spec_fn(Q::Item) -> bool>,
}

impl<Q: Queryable, P: Fn(&Q::Item) -> bool> QSkipWhile<Q, P> {
    /// What follows the leading run of `query` under `predicate`, in terms
    /// of what the contract of `predicate` fixes.
    pub fn new(query: Q, predicate: P) -> (adapter: Self)
        requires
            query.inv(),
            decides_leading(predicate, query.remaining()),
        ensures
            adapter.inv(),
            adapter.remaining() == query.remaining().skip(
                leading(query.remaining(), holds_fn(predicate)) as int,
            ),
            adapter.upstream() == query.remaining(),
            adapter.model() == holds_fn(predicate),
            adapter.skipping(),
    {
        proof {
            lemma_decides_leading_answers(predicate, query.remaining());
        }
        QSkipWhile { query, flag: true, predicate, model: Ghost(holds_fn(predicate)) }
    }

    /// What follows the leading run of `query` under `predicate`, in terms
    /// of a description of `predicate` that the caller gives.
    pub fn with_model(
        query: Q,
        predicate: P,
        Ghost(model): Ghost<spec_fn(Q::Item) -> bool>,
    ) -> (adapter: Self)
        requires
            query.inv(),
            answers_leading(predicate, model, query.remaining()),
        ensures
            adapter.inv(),
            adapter.remaining() == query.remaining().skip(
                leading(query.remaining(), model) as int,
            ),
            adapter.upstream() == query.remaining(),
            adapter.model() == model,
            adapter.skipping(),
    {
        QSkipWhile { query, flag: true, predicate, model: Ghost(model) }
    }

    /// What the wrapped producer has yet to yield.
    pub closed spec fn upstream(&self) -> Seq<Q::Item> {
        self.query.remaining()
    }

    /// The description of the predicate.
    pub closed spec fn model(&self) -> spec_fn(Q::Item) -> bool {
        self.model@
    }

    /// Whether no element has failed the predicate yet.
    pub closed spec fn skipping(&self) -> bool {
        self.flag
    }
}

impl<Q: Queryable, P: Fn(&Q::Item) -> bool> Queryable for QSkipWhile<Q, P> {
    type Item = Q::Item;

    closed spec fn inv(&self) -> bool {
        &&& self.query.inv()
        &&& self.flag ==> answers_leading(self.predicate, self.model@, self.query.remaining())
    }

    closed spec fn remaining(&self) -> Seq<Q::Item> {
        if self.flag {
            self.query.remaining().skip(leading(self.query.remaining(), self.model@) as int)
        } else {
            self.query.remaining()
        }
    }

    /// While no element has failed the predicate, takes elements from the
    /// wrapped producer up to the first that fails it, and no more; after
    /// that, one element.
    fn next(&mut self) -> (item: Option<Q::Item>)
        ensures
            final(self).model() == old(self).model(),
            !old(self).skipping() ==> {
                &&& !final(self).skipping()
                &&& final(self).upstream() == if old(self).upstream().len() > 0 {
                    old(self).upstream().drop_first()
                } else {
                    old(self).upstream()
                }
            },
            old(self).skipping() ==> {
                &&& final(self).skipping() == (item is None)
                &&& final(self).upstream() == beyond(
                    old(self).upstream(),
                    not_fn(old(self).model()),
                )
            },
    {
        if !self.flag {
            return self.query.next();
        }
        loop
            invariant
                self.flag,
                old(self).skipping(),
                self.inv(),
                self.remaining() == old(self).remaining(),
                self.model() == old(self).model(),
                beyond(self.upstream(), not_fn(self.model())) == beyond(
                    old(self).upstream(),
                    not_fn(old(self).model()),
                ),
            decreases self.query.remaining().len(),
        {
            let ghost before = self.query.remaining();
            let ghost pred = self.model@;
            proof {
                lemma_leading_bound(before, pred);
                lemma_beyond_head(before, not_fn(pred));
            }
            match self.query.next() {
                Some(x) => {
                    proof {
                        lemma_answers_leading_tail(self.predicate, pred, before);
                        lemma_leading_bound(before.drop_first(), pred);
                    }
                    if !(self.predicate)(&x) {
                        self.flag = false;
                        assert(before.skip(0) =~= before);
                        return Some(x);
                    }
                    assert(before.skip(leading(before, pred) as int) =~= before.drop_first().skip(
                        leading(before.drop_first(), pred) as int,
                    ));
                },
                None => {
                    assert(before.skip(0) =~= before);
                    return None;
                },
            }
        }
    }
}

} // verus!
