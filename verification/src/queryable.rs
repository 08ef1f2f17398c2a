//! The producer contract and the buffer-backed source.

use std::collections::VecDeque;
use vstd::prelude::*;
use vstd::std_specs::iter::IteratorSpec;

verus! {

/// A sequence producer: something that can be asked, again and again, for
/// its next element.
///
/// The model of a producer is `remaining()`, the elements it has yet to
/// yield, in order. `next` takes the head of that sequence; on an exhausted
/// producer it yields nothing and changes nothing, however often it is
/// called.
pub trait Queryable {
    type Item;

    /// Well-formedness of the producer's state.
    spec fn inv(&self) -> bool;

    /// The elements still to come, in the order in which `next` yields them.
    spec fn remaining(&self) -> Seq<Self::Item>;

    fn next(&mut self) -> (item: Option<Self::Item>)
        requires
            old(self).inv(),
        ensures
            final(self).inv(),
            old(self).remaining().len() == 0 ==> item is None && final(self).remaining()
                == old(self).remaining(),
            old(self).remaining().len() > 0 ==> item == Some(old(self).remaining().first())
                && final(self).remaining() == old(self).remaining().drop_first(),
    ;
}

/// A producer that can also be consumed from its tail.
pub trait DoubleEndedQueryable: Queryable {
    fn next_back(&mut self) -> (item: Option<Self::Item>)
        requires
            old(self).inv(),
        ensures
            final(self).inv(),
            old(self).remaining().len() == 0 ==> item is None && final(self).remaining()
                == old(self).remaining(),
            old(self).remaining().len() > 0 ==> item == Some(old(self).remaining().last())
                && final(self).remaining() == old(self).remaining().drop_last(),
    ;
}

/// A producer over an owned buffer.
pub struct QSource<T> {
    items: VecDeque<T>,
}

impl<T> Queryable for QSource<T> {
    type Item = T;

    closed spec fn inv(&self) -> bool {
        true
    }

    closed spec fn remaining(&self) -> Seq<T> {
        self.items@
    }

    fn next(&mut self) -> (item: Option<T>) {
        self.items.pop_front()
    }
}

impl<T> DoubleEndedQueryable for QSource<T> {
    fn next_back(&mut self) -> (item: Option<T>) {
        self.items.pop_back()
    }
}

impl<T> QSource<T> {
    /// A producer of the elements of a vector, first to last.
    pub fn from_vec(v: Vec<T>) -> (source: Self)
        ensures
            source.inv(),
            source.remaining() == v@,
    {
        let mut v = v;
        let ghost all = v@;
        let mut items: VecDeque<T> = VecDeque::new();
        while v.len() > 0
            invariant
                v@ + items@ == all,
            decreases v.len(),
        {
            let ghost head = v@.drop_last();
            let ghost tail = items@;
            match v.pop() {
                Some(x) => {
                    items.push_front(x);
                    assert(v@ + items@ =~= (head + seq![x]) + tail);
                },
                None => {},
            }
        }
        assert(items@ =~= all);
        QSource { items }
    }
}

/// Turns an iterator into a producer of its elements. The iterator is
/// drained into a buffer at once; it has to come with a measure of what it
/// has left, as the iterators of vectors and ranges do.
pub fn into_queryable<I: Iterator>(iter: I) -> (source: QSource<I::Item>)
    requires
        iter.obeys_prophetic_iter_laws(),
        iter.decrease() is Some,
    ensures
        source.inv(),
        source.remaining() == iter.remaining(),
{
    let mut rest = iter;
    let mut items: VecDeque<I::Item> = VecDeque::new();
    loop
        invariant
            rest.obeys_prophetic_iter_laws(),
            rest.decrease() is Some,
            items@ + rest.remaining() == iter.remaining(),
        decreases rest.decrease()->0,
    {
        let ghost before = rest.remaining();
        match rest.next() {
            Some(x) => {
                items.push_back(x);
                assert(items@ + rest.remaining() =~= items@.drop_last() + before);
            },
            None => {
                assert(items@ + before =~= items@);
                return QSource { items };
            },
        }
    }
}

} // verus!
