//! One sequence after another.

use crate::queryable::{DoubleEndedQueryable, Queryable};
use vstd::prelude::*;

verus! {

/// Yields the elements of `query1`, then those of `query2`. Once `query1`
/// has signalled its exhaustion it is not asked again.
pub struct QConcate<A, B> {
    query1: A,
    query2: B,
    switched: bool,
}

impl<A: Queryable, B: Queryable<Item = A::Item>> QConcate<A, B> {
    pub fn new(query1: A, query2: B) -> (adapter: Self)
        requires
            query1.inv(),
            query2.inv(),
        ensures
            adapter.inv(),
            adapter.remaining() == query1.remaining() + query2.remaining(),
            adapter.first_upstream() == query1.remaining(),
            adapter.second_upstream() == query2.remaining(),
            !adapter.switched(),
    {
        QConcate { query1, query2, switched: false }
    }

    /// Whether the first wrapped producer has signalled its exhaustion.
    pub closed spec fn switched(&self) -> bool {
        self.switched
    }

    /// What the first wrapped producer has yet to yield.
    pub closed spec fn first_upstream(&self) -> Seq<A::Item> {
        self.query1.remaining()
    }

    /// What the second wrapped producer has yet to yield.
    pub closed spec fn second_upstream(&self) -> Seq<A::Item> {
        self.query2.remaining()
    }
}

impl<A: Queryable, B: Queryable<Item = A::Item>> Queryable for QConcate<A, B> {
    type Item = A::Item;

    closed spec fn inv(&self) -> bool {
        &&& self.query1.inv()
        &&& self.query2.inv()
        &&& self.switched ==> self.query1.remaining().len() == 0
    }

    closed spec fn remaining(&self) -> Seq<A::Item> {
        self.query1.remaining() + self.query2.remaining()
    }

    /// Takes one element from the first producer; from the second, once the
    /// first has none. From then on it has switched to the second for good.
    fn next(&mut self) -> (item: Option<A::Item>)
        ensures
            final(self).switched() == (old(self).switched() || old(self).first_upstream().len()
                == 0),
            old(self).first_upstream().len() > 0 ==> {
                &&& final(self).first_upstream() == old(self).first_upstream().drop_first()
                &&& final(self).second_upstream() == old(self).second_upstream()
            },
            old(self).first_upstream().len() == 0 ==> {
                &&& final(self).first_upstream() == old(self).first_upstream()
                &&& final(self).second_upstream() == if old(self).second_upstream().len() > 0 {
                    old(self).second_upstream().drop_first()
                } else {
                    old(self).second_upstream()
                }
            },
    {
        let ghost first = self.query1.remaining();
        let ghost second = self.query2.remaining();
        if !self.switched {
            match self.query1.next() {
                Some(x) => {
                    assert((first + second).drop_first() =~= first.drop_first() + second);
                    return Some(x);
                },
                None => {
                    self.switched = true;
                },
            }
        }
        assert(first + second =~= second);
        let item = self.query2.next();
        assert(first + self.query2.remaining() =~= self.query2.remaining());
        item
    }
}

impl<A, B> DoubleEndedQueryable for QConcate<A, B> where
    A: DoubleEndedQueryable,
    B: DoubleEndedQueryable<Item = A::Item>,
 {
    /// Takes one element from the tail of the second producer; from the
    /// tail of the first, once the second has none.
    fn next_back(&mut self) -> (item: Option<A::Item>)
        ensures
            final(self).switched() == old(self).switched(),
            old(self).second_upstream().len() > 0 ==> {
                &&& final(self).second_upstream() == old(self).second_upstream().drop_last()
                &&& final(self).first_upstream() == old(self).first_upstream()
            },
            old(self).second_upstream().len() == 0 ==> {
                &&& final(self).second_upstream() == old(self).second_upstream()
                &&& final(self).first_upstream() == if old(self).first_upstream().len() > 0 {
                    old(self).first_upstream().drop_last()
                } else {
                    old(self).first_upstream()
                }
            },
    {
        let ghost first = self.query1.remaining();
        let ghost second = self.query2.remaining();
        match self.query2.next_back() {
            Some(x) => {
                assert((first + second).drop_last() =~= first + second.drop_last());
                Some(x)
            },
            None => {
                assert(first + second =~= first);
                let item = self.query1.next_back();
                assert(self.query1.remaining() + second =~= self.query1.remaining());
                item
            },
        }
    }
}

/// Concatenates two sequences.
pub fn concate<A: Queryable, B: Queryable<Item = A::Item>>(iter: A, other: B) -> (adapter: QConcate<
    A,
    B,
>)
    requires
        iter.inv(),
        other.inv(),
    ensures
        adapter.inv(),
        adapter.remaining() == iter.remaining() + other.remaining(),
        adapter.first_upstream() == iter.remaining(),
        adapter.second_upstream() == other.remaining(),
        !adapter.switched(),
{
    QConcate::new(iter, other)
}

} // verus!
