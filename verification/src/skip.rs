//! A sequence without its first elements, up to a count.

use crate::queryable::Queryable;
use vstd::prelude::*;

verus! {

/// `s` without its first `count` elements; nothing if it has fewer.
pub open spec fn skip_seq<T>(s: Seq<T>, count: nat) -> Seq<T> {
    if count <= s.len() {
        s.skip(count as int)
    } else {
        Seq::empty()
    }
}

/// Drops the first `count` elements of `query` and yields the rest.
pub struct QSkip<Q> {
    query: Q,
    count: usize,
}

impl<Q: Queryable> QSkip<Q> {
    pub fn new(query: Q, count: usize) -> (adapter: Self)
        requires
            query.inv(),
        ensures
            adapter.inv(),
            adapter.remaining() == skip_seq(query.remaining(), count as nat),
            adapter.upstream() == query.remaining(),
            adapter.left() == count,
    {
        QSkip { query, count }
    }

    /// What the wrapped producer has yet to yield.
    pub closed spec fn upstream(&self) -> Seq<Q::Item> {
        self.query.remaining()
    }

    /// How many elements are still to be dropped.
    pub closed spec fn left(&self) -> nat {
        self.count as nat
    }
}

impl<Q: Queryable> Queryable for QSkip<Q> {
    type Item = Q::Item;

    closed spec fn inv(&self) -> bool {
        self.query.inv()
    }

    closed spec fn remaining(&self) -> Seq<Q::Item> {
        skip_seq(self.query.remaining(), self.count as nat)
    }

    /// Takes from the wrapped producer the elements still to be dropped and
    /// one more, and no more.
    fn next(&mut self) -> (item: Option<Q::Item>)
        ensures
            final(self).left() == 0,
            final(self).upstream() == skip_seq(old(self).upstream(), old(self).left() + 1),
    {
        while self.count > 0
            invariant
                self.inv(),
                self.remaining() == old(self).remaining(),
                skip_seq(self.upstream(), self.left() + 1) == skip_seq(
                    old(self).upstream(),
                    old(self).left() + 1,
                ),
            decreases self.count,
        {
            let ghost before = self.query.remaining();
            match self.query.next() {
                Some(_) => {
                    self.count -= 1;
                    proof {
                        if self.count + 1 <= before.len() {
                            assert(before.skip(self.count + 1) =~= before.drop_first().skip(
                                self.count as int,
                            ));
                        }
                        if self.count + 2 <= before.len() {
                            assert(before.skip(self.count + 2) =~= before.drop_first().skip(
                                self.count + 1,
                            ));
                        }
                    }
                },
                None => {
                    self.count = 0;
                    assert(before.skip(0) =~= before);
                },
            }
        }
        let ghost before = self.query.remaining();
        assert(before.skip(0) =~= before);
        let item = self.query.next();
        assert(self.query.remaining().skip(0) =~= self.query.remaining());
        assert(before.len() > 0 ==> before.skip(1) =~= before.drop_first());
        item
    }
}

} // verus!
