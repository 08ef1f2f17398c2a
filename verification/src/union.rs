//! The distinct elements of two sequences.

use crate::distinct::{distinct_from, distinct_seq, novel_fn};
use crate::model::{beyond, finds, lemma_beyond_head};
use crate::queryable::Queryable;
use std::collections::HashSet;
use std::hash::Hash;
use vstd::prelude::*;
use vstd::std_specs::hash::obeys_key_model;

verus! {

broadcast use vstd::std_specs::hash::group_hash_axioms;

/// Yields the distinct elements of `first_source`, then those elements of
/// `second_source` that have not been yielded before.
pub struct UnionIterator<I: Queryable, U: Queryable<Item = I::Item>> where
    I::Item: Eq + Hash + Copy,
 {
    first_source: I,
    second_source: U,
    was_first_source_consumed: bool,
    hash_map: HashSet<I::Item>,
}

impl<I: Queryable, U: Queryable<Item = I::Item>> UnionIterator<I, U> where
    I::Item: Eq + Hash + Copy,
 {
    /// What the first wrapped producer has yet to yield.
    pub closed spec fn first_upstream(&self) -> Seq<I::Item> {
        self.first_source.remaining()
    }

    /// What the second wrapped producer has yet to yield.
    pub closed spec fn second_upstream(&self) -> Seq<I::Item> {
        self.second_source.remaining()
    }

    /// The elements yielded so far.
    pub closed spec fn seen(&self) -> Set<I::Item> {
        self.hash_map@
    }
}

impl<I: Queryable, U: Queryable<Item = I::Item>> Queryable for UnionIterator<I, U> where
    I::Item: Eq + Hash + Copy,
 {
    type Item = I::Item;

    closed spec fn inv(&self) -> bool {
        &&& self.first_source.inv()
        &&& self.second_source.inv()
        &&& obeys_key_model::<I::Item>()
        &&& self.was_first_source_consumed ==> self.first_source.remaining().len() == 0
    }

    closed spec fn remaining(&self) -> Seq<I::Item> {
        distinct_from(
            self.first_source.remaining() + self.second_source.remaining(),
            self.hash_map@,
        )
    }

    /// Takes elements from the first producer up to the first that has not
    /// been yielded before. Only if the first producer has none of those
    /// left does it do the same with the second. The set of elements
    /// yielded only grows, by the element that is yielded.
    fn next(&mut self) -> (item: Option<I::Item>)
        ensures
            final(self).seen() == match item {
                Some(x) => old(self).seen().insert(x),
                None => old(self).seen(),
            },
            final(self).first_upstream() == beyond(
                old(self).first_upstream(),
                novel_fn(old(self).seen()),
            ),
            final(self).second_upstream() == if finds(
                old(self).first_upstream(),
                novel_fn(old(self).seen()),
            ) {
                old(self).second_upstream()
            } else {
                beyond(old(self).second_upstream(), novel_fn(old(self).seen()))
            },
    {
        let ghost novel = novel_fn(self.hash_map@);
        proof {
            if self.was_first_source_consumed {
                lemma_beyond_head(self.first_source.remaining(), novel);
            }
        }
        loop
            invariant
                self.inv(),
                self.remaining() == old(self).remaining(),
                self.seen() == old(self).seen(),
                novel == novel_fn(old(self).seen()),
                !self.was_first_source_consumed ==> {
                    &&& beyond(self.first_upstream(), novel) == beyond(
                        old(self).first_upstream(),
                        novel,
                    )
                    &&& finds(self.first_upstream(), novel) == finds(
                        old(self).first_upstream(),
                        novel,
                    )
                    &&& self.second_upstream() == old(self).second_upstream()
                },
                self.was_first_source_consumed ==> {
                    &&& self.first_upstream() == beyond(old(self).first_upstream(), novel)
                    &&& !finds(old(self).first_upstream(), novel)
                    &&& beyond(self.second_upstream(), novel) == beyond(
                        old(self).second_upstream(),
                        novel,
                    )
                },
            decreases
                    self.first_source.remaining().len() + self.second_source.remaining().len(),
                    if self.was_first_source_consumed { 0int } else { 1int },
        {
            let ghost seen = self.hash_map@;
            let ghost first = self.first_source.remaining();
            let ghost second = self.second_source.remaining();
            proof {
                lemma_beyond_head(first, novel);
                lemma_beyond_head(second, novel);
            }
            if !self.was_first_source_consumed {
                match self.first_source.next() {
                    Some(item) => {
                        assert((first + second).drop_first() =~= first.drop_first() + second);
                        if self.hash_map.insert(item) {
                            proof {
                                let rest = distinct_from(
                                    first.drop_first() + second,
                                    self.hash_map@,
                                );
                                assert((seq![item] + rest).drop_first() =~= rest);
                            }
                            return Some(item);
                        }
                        assert(self.hash_map@ =~= seen);
                    },
                    None => {
                        self.was_first_source_consumed = true;
                    },
                }
            } else {
                assert(first + second =~= second);
                match self.second_source.next() {
                    Some(item) => {
                        assert(first + second.drop_first() =~= second.drop_first());
                        if self.hash_map.insert(item) {
                            proof {
                                let rest = distinct_from(second.drop_first(), self.hash_map@);
                                assert((seq![item] + rest).drop_first() =~= rest);
                            }
                            return Some(item);
                        }
                        assert(self.hash_map@ =~= seen);
                    },
                    None => {
                        return None;
                    },
                }
            }
        }
    }
}

/// Produces the set union of two sequences: every element of either, once,
/// at the place where it first occurs in `iter` followed by `iter_union`.
pub fn union<I: Queryable, U: Queryable<Item = I::Item>>(iter: I, iter_union: U) -> (adapter:
    UnionIterator<I, U>) where I::Item: Eq + Hash + Copy
    requires
        iter.inv(),
        iter_union.inv(),
        obeys_key_model::<I::Item>(),
    ensures
        adapter.inv(),
        adapter.remaining() == distinct_seq(iter.remaining() + iter_union.remaining()),
        adapter.first_upstream() == iter.remaining(),
        adapter.second_upstream() == iter_union.remaining(),
        adapter.seen() == Set::<I::Item>::empty(),
{
    let hash_map = HashSet::new();
    UnionIterator {
        hash_map,
        first_source: iter,
        second_source: iter_union,
        was_first_source_consumed: false,
    }
}

} // verus!
