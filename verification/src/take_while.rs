//! The leading elements on which a predicate holds.

use crate::model::{answers, decides, holds_fn, lemma_decides_answers};
use crate::queryable::Queryable;
use vstd::prelude::*;

verus! {

/// The number of elements at the head of `s` on which `pred` holds without a
/// break.
pub open spec fn leading<T>(s: Seq<T>, pred: spec_fn(T) -> bool) -> nat
    decreases s.len(),
{
    if s.len() == 0 || !pred(s.first()) {
        0
    } else {
        1 + leading(s.drop_first(), pred)
    }
}

/// `p` answers as `model` does on the elements of `s` up to the first on
/// which `model` does not hold, that one included.
pub open spec fn answers_leading<T, P: Fn(&T) -> bool>(
    p: P,
    model: spec_fn(T) -> bool,
    s: Seq<T>,
) -> bool {
    forall|i: int| 0 <= i < s.len() && i <= leading(s, model) ==> answers(p, model, #[trigger] s[i])
}

/// `p` decides the elements of `s` up to the first on which it does not
/// hold, that one included.
pub open spec fn decides_leading<T, P: Fn(&T) -> bool>(p: P, s: Seq<T>) -> bool {
    forall|i: int| 0 <= i < s.len() && i <= leading(s, holds_fn(p)) ==> decides(p, #[trigger] s[i])
}

/// A predicate that decides the leading run of a sequence answers there as
/// its contract fixes.
pub proof fn lemma_decides_leading_answers<T, P: Fn(&T) -> bool>(p: P, s: Seq<T>)
    requires
        decides_leading(p, s),
    ensures
        answers_leading(p, holds_fn(p), s),
{
    assert forall|i: int| 0 <= i < s.len() && i <= leading(s, holds_fn(p)) implies answers(
        p,
        holds_fn(p),
        #[trigger] s[i],
    ) by {
        lemma_decides_answers(p, s[i]);
    }
}

/// The leading run is no longer than the sequence.
pub proof fn lemma_leading_bound<T>(s: Seq<T>, pred: spec_fn(T) -> bool)
    ensures
        leading(s, pred) <= s.len(),
    decreases s.len(),
{
    if s.len() > 0 && pred(s.first()) {
        lemma_leading_bound(s.drop_first(), pred);
    }
}

/// A predicate that answers on the leading run of a sequence answers on its
/// head and, where the model holds there, on the leading run of the tail.
pub proof fn lemma_answers_leading_tail<T, P: Fn(&T) -> bool>(
    p: P,
    model: spec_fn(T) -> bool,
    s: Seq<T>,
)
    requires
        answers_leading(p, model, s),
        s.len() > 0,
    ensures
        answers(p, model, s.first()),
        model(s.first()) ==> answers_leading(p, model, s.drop_first()),
{
    assert(answers(p, model, s[0]));
    if model(s.first()) {
        assert forall|i: int|
            0 <= i < s.drop_first().len() && i <= leading(s.drop_first(), model) implies answers(
            p,
            model,
            #[trigger] s.drop_first()[i],
        ) by {
            assert(s.drop_first()[i] == s[i + 1]);
        }
    }
}

/// Yields the elements of `query` up to the first on which `predicate` does
/// not hold. That element is taken from `query` and dropped.
#[verifier::reject_recursive_types(Q)]
pub struct QTakeWhile<Q: Queryable, P> {
    query: Q,
    flag: bool,
    predicate: P,
    model: Ghost<spec_fn(Q::Item) -> bool>,
}

impl<Q: Queryable, P: Fn(&Q::Item) -> bool> QTakeWhile<Q, P> {
    /// The leading run of `query` under `predicate`, in terms of what the
    /// contract of `predicate` fixes.
    pub fn new(query: Q, predicate: P) -> (adapter: Self)
        requires
            query.inv(),
            decides_leading(predicate, query.remaining()),
        ensures
            adapter.inv(),
            adapter.remaining() == query.remaining().take(
                leading(query.remaining(), holds_fn(predicate)) as int,
            ),
            adapter.upstream() == query.remaining(),
            adapter.model() == holds_fn(predicate),
            adapter.taking(),
    {
        proof {
            lemma_decides_leading_answers(predicate, query.remaining());
        }
        QTakeWhile { query, flag: true, predicate, model: Ghost(holds_fn(predicate)) }
    }

    /// The leading run of `query` under `predicate`, in terms of a
    /// description of `predicate` that the caller gives.
    pub fn with_model(
        query: Q,
        predicate: P,
        Ghost(model): Ghost<spec_fn(Q::Item) -> bool>,
    ) -> (adapter: Self)
        requires
            query.inv(),
            answers_leading(predicate, model, query.remaining()),
        ensures
            adapter.inv(),
            adapter.remaining() == query.remaining().take(
                leading(query.remaining(), model) as int,
            ),
            adapter.upstream() == query.remaining(),
            adapter.model() == model,
            adapter.taking(),
    {
        QTakeWhile { query, flag: true, predicate, model: Ghost(model) }
    }

    /// What the wrapped producer has yet to yield.
    pub closed spec fn upstream(&self) -> Seq<Q::Item> {
        self.query.remaining()
    }

    /// The description of the predicate.
    pub closed spec fn model(&self) -> spec_fn(Q::Item) -> bool {
        self.model@
    }

    /// Whether no element has failed the predicate yet.
    pub closed spec fn taking(&self) -> bool {
        self.flag
    }
}

impl<Q: Queryable, P: Fn(&Q::Item) -> bool> Queryable for QTakeWhile<Q, P> {
    type Item = Q::Item;

    closed spec fn inv(&self) -> bool {
        &&& self.query.inv()
        &&& self.flag ==> answers_leading(self.predicate, self.model@, self.query.remaining())
    }

    closed spec fn remaining(&self) -> Seq<Q::Item> {
        if self.flag {
            self.query.remaining().take(leading(self.query.remaining(), self.model@) as int)
        } else {
            Seq::empty()
        }
    }

    /// Takes one element from the wrapped producer until an element has
    /// failed the predicate, and nothing after.
    fn next(&mut self) -> (item: Option<Q::Item>)
        ensures
            final(self).model() == old(self).model(),
            !old(self).taking() ==> !final(self).taking() && final(self).upstream() == old(
                self,
            ).upstream(),
            old(self).taking() && old(self).upstream().len() == 0 ==> final(self).taking()
                && final(self).upstream() == old(self).upstream(),
            old(self).taking() && old(self).upstream().len() > 0 ==> {
                &&& final(self).taking() == old(self).model()(old(self).upstream().first())
                &&& final(self).upstream() == old(self).upstream().drop_first()
            },
    {
        if !self.flag {
            return None;
        }
        let ghost before = self.query.remaining();
        let ghost pred = self.model@;
        proof {
            lemma_leading_bound(before, pred);
        }
        match self.query.next() {
            Some(x) => {
                proof {
                    lemma_answers_leading_tail(self.predicate, pred, before);
                    lemma_leading_bound(before.drop_first(), pred);
                }
                if (self.predicate)(&x) {
                    assert(before.take(leading(before, pred) as int).drop_first()
                        =~= before.drop_first().take(leading(before.drop_first(), pred) as int));
                    Some(x)
                } else {
                    self.flag = false;
                    assert(before.take(0) =~= Seq::<Q::Item>::empty());
                    None
                }
            },
            None => None,
        }
    }
}

} // verus!
