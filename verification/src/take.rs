//! The first elements of a sequence, up to a count.

use crate::queryable::Queryable;
use vstd::prelude::*;

verus! {

/// The first `count` elements of `s`, or all of `s` if it has fewer.
pub open spec fn take_seq<T>(s: Seq<T>, count: nat) -> Seq<T> {
    if count <= s.len() {
        s.take(count as int)
    } else {
        s
    }
}

/// Yields the first `count` elements of `query`.
pub struct QTake<Q> {
    query: Q,
    count: usize,
}

impl<Q: Queryable> QTake<Q> {
    pub fn new(query: Q, count: usize) -> (adapter: Self)
        requires
            query.inv(),
        ensures
            adapter.inv(),
            adapter.remaining() == take_seq(query.remaining(), count as nat),
            adapter.upstream() == query.remaining(),
            adapter.left() == count,
    {
        QTake { query, count }
    }

    /// What the wrapped producer has yet to yield.
    pub closed spec fn upstream(&self) -> Seq<Q::Item> {
        self.query.remaining()
    }

    /// How many elements may still be taken.
    pub closed spec fn left(&self) -> nat {
        self.count as nat
    }
}

impl<Q: Queryable> Queryable for QTake<Q> {
    type Item = Q::Item;

    closed spec fn inv(&self) -> bool {
        self.query.inv()
    }

    closed spec fn remaining(&self) -> Seq<Q::Item> {
        take_seq(self.query.remaining(), self.count as nat)
    }

    /// Takes one element from the wrapped producer while the count lasts,
    /// and nothing after.
    fn next(&mut self) -> (item: Option<Q::Item>)
        ensures
            old(self).left() == 0 ==> final(self).left() == 0 && final(self).upstream() == old(
                self,
            ).upstream(),
            old(self).left() > 0 ==> {
                &&& final(self).left() == old(self).left() - 1
                &&& final(self).upstream() == if old(self).upstream().len() > 0 {
                    old(self).upstream().drop_first()
                } else {
                    old(self).upstream()
                }
            },
    {
        let ghost before = self.query.remaining();
        if self.count == 0 {
            assert(before.take(0) =~= Seq::<Q::Item>::empty());
            None
        } else {
            self.count -= 1;
            let item = self.query.next();
            proof {
                if before.len() > 0 {
                    if self.count + 1 <= before.len() {
                        assert(before.take(self.count + 1).drop_first()
                            =~= before.drop_first().take(self.count as int));
                    }
                }
            }
            item
        }
    }
}

} // verus!
