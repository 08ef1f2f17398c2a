//! A sequence from its tail backward.

use crate::queryable::{DoubleEndedQueryable, Queryable};
use vstd::prelude::*;

verus! {

/// Yields the elements of `iter` last to first.
pub struct ReverseIterator<I> {
    iter: I,
}

impl<I: DoubleEndedQueryable> ReverseIterator<I> {
    /// What the wrapped producer has yet to yield.
    pub closed spec fn upstream(&self) -> Seq<I::Item> {
        self.iter.remaining()
    }
}

impl<I: DoubleEndedQueryable> Queryable for ReverseIterator<I> {
    type Item = I::Item;

    closed spec fn inv(&self) -> bool {
        self.iter.inv()
    }

    closed spec fn remaining(&self) -> Seq<I::Item> {
        self.iter.remaining().reverse()
    }

    /// Takes one element from the tail of the wrapped producer, if it has
    /// one.
    fn next(&mut self) -> (item: Option<I::Item>)
        ensures
            final(self).upstream() == if old(self).upstream().len() > 0 {
                old(self).upstream().drop_last()
            } else {
                old(self).upstream()
            },
    {
        let ghost before = self.iter.remaining();
        let item = self.iter.next_back();
        assert(before.len() > 0 ==> before.reverse().drop_first() =~= before.drop_last().reverse());
        item
    }
}

impl<I: DoubleEndedQueryable> DoubleEndedQueryable for ReverseIterator<I> {
    /// Takes one element from the head of the wrapped producer, if it has
    /// one.
    fn next_back(&mut self) -> (item: Option<I::Item>)
        ensures
            final(self).upstream() == if old(self).upstream().len() > 0 {
                old(self).upstream().drop_first()
            } else {
                old(self).upstream()
            },
    {
        let ghost before = self.iter.remaining();
        let item = self.iter.next();
        assert(before.len() > 0 ==> before.reverse().drop_last() =~= before.drop_first().reverse());
        item
    }
}

/// Inverts the order of the elements in a sequence.
pub fn reverse<I: DoubleEndedQueryable>(iter: I) -> (adapter: ReverseIterator<I>)
    requires
        iter.inv(),
    ensures
        adapter.inv(),
        adapter.remaining() == iter.remaining().reverse(),
        adapter.upstream() == iter.remaining(),
{
    ReverseIterator { iter }
}

} // verus!
