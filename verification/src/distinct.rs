//! Dropping repeated elements.

use crate::model::{beyond, lemma_beyond_head, lemma_filter_head};
use crate::queryable::Queryable;
use std::collections::HashSet;
use std::hash::Hash;
use vstd::prelude::*;
use vstd::std_specs::hash::obeys_key_model;

verus! {

broadcast use vstd::std_specs::hash::group_hash_axioms;

/// The elements of `s` that are neither in `seen` nor at an earlier place in
/// `s`, in their order in `s`.
pub open spec fn distinct_from<T>(s: Seq<T>, seen: Set<T>) -> Seq<T>
    decreases s.len(),
{
    if s.len() == 0 {
        Seq::empty()
    } else if seen.contains(s.first()) {
        distinct_from(s.drop_first(), seen)
    } else {
        seq![s.first()] + distinct_from(s.drop_first(), seen.insert(s.first()))
    }
}

/// The first occurrence of every element of `s`, in their order in `s`.
pub open spec fn distinct_seq<T>(s: Seq<T>) -> Seq<T> {
    distinct_from(s, Set::empty())
}

/// The predicate that holds on what `seen` does not hold.
pub open spec fn novel_fn<T>(seen: Set<T>) -> spec_fn(T) -> bool {
    |x: T| !seen.contains(x)
}

/// Yields every element of `source` once, at the place where it first occurs.
pub struct DistinctIterator<I: Queryable> where I::Item: Eq + Hash + Copy {
    source: I,
    hash_map: HashSet<I::Item>,
}

impl<I: Queryable> DistinctIterator<I> where I::Item: Eq + Hash + Copy {
    /// What the wrapped producer has yet to yield.
    pub closed spec fn upstream(&self) -> Seq<I::Item> {
        self.source.remaining()
    }

    /// The elements yielded so far.
    pub closed spec fn seen(&self) -> Set<I::Item> {
        self.hash_map@
    }
}

impl<I: Queryable> Queryable for DistinctIterator<I> where I::Item: Eq + Hash + Copy {
    type Item = I::Item;

    closed spec fn inv(&self) -> bool {
        &&& self.source.inv()
        &&& obeys_key_model::<I::Item>()
    }

    closed spec fn remaining(&self) -> Seq<I::Item> {
        distinct_from(self.source.remaining(), self.hash_map@)
    }

    /// Takes elements from the wrapped producer up to the first that has not
    /// been yielded before, and no more. The set of elements yielded only
    /// grows, by the element that is yielded.
    fn next(&mut self) -> (item: Option<I::Item>)
        ensures
            final(self).upstream() == beyond(old(self).upstream(), novel_fn(old(self).seen())),
            final(self).seen() == match item {
                Some(x) => old(self).seen().insert(x),
                None => old(self).seen(),
            },
    {
        loop
            invariant
                self.inv(),
                self.remaining() == old(self).remaining(),
                self.seen() == old(self).seen(),
                beyond(self.upstream(), novel_fn(self.seen())) == beyond(
                    old(self).upstream(),
                    novel_fn(old(self).seen()),
                ),
            decreases self.source.remaining().len(),
        {
            let ghost seen = self.hash_map@;
            proof {
                lemma_beyond_head(self.source.remaining(), novel_fn(seen));
            }
            match self.source.next() {
                Some(item) => {
                    if self.hash_map.insert(item) {
                        proof {
                            let rest = distinct_from(self.source.remaining(), self.hash_map@);
                            assert((seq![item] + rest).drop_first() =~= rest);
                        }
                        return Some(item);
                    }
                    assert(self.hash_map@ =~= seen);
                },
                None => {
                    return None;
                },
            }
        }
    }
}

/// Returns the distinct elements of a sequence, each at the place of its
/// first occurrence.
pub fn distinct<I: Queryable>(iter: I) -> (adapter: DistinctIterator<I>) where
    I::Item: Eq + Hash + Copy,

    requires
        iter.inv(),
        obeys_key_model::<I::Item>(),
    ensures
        adapter.inv(),
        adapter.remaining() == distinct_seq(iter.remaining()),
        adapter.upstream() == iter.remaining(),
        adapter.seen() == Set::<I::Item>::empty(),
{
    let hash_map = HashSet::new();
    DistinctIterator { hash_map, source: iter }
}

/// An element is among the distinct elements of `s` from `seen` exactly if
/// it is in `s` and not in `seen`.
pub proof fn lemma_distinct_from_contains<T>(s: Seq<T>, seen: Set<T>, x: T)
    ensures
        distinct_from(s, seen).contains(x) <==> s.contains(x) && !seen.contains(x),
    decreases s.len(),
{
    if s.len() != 0 {
        let rest = s.drop_first();
        assert(s =~= seq![s.first()] + rest);
        assert(s.contains(x) <==> x == s.first() || rest.contains(x)) by {
            if s.contains(x) {
                let i = choose|i: int| 0 <= i < s.len() && s[i] == x;
                if i > 0 {
                    assert(rest[i - 1] == x);
                }
            }
            if rest.contains(x) {
                let i = choose|i: int| 0 <= i < rest.len() && rest[i] == x;
                assert(s[i + 1] == x);
            }
            if x == s.first() {
                assert(s[0] == x);
            }
        }
        if seen.contains(s.first()) {
            lemma_distinct_from_contains(rest, seen, x);
        } else {
            let tail = distinct_from(rest, seen.insert(s.first()));
            let out = seq![s.first()] + tail;
            lemma_distinct_from_contains(rest, seen.insert(s.first()), x);
            assert(out.contains(x) <==> x == s.first() || tail.contains(x)) by {
                if out.contains(x) {
                    let i = choose|i: int| 0 <= i < out.len() && out[i] == x;
                    if i > 0 {
                        assert(tail[i - 1] == x);
                    }
                }
                if tail.contains(x) {
                    let i = choose|i: int| 0 <= i < tail.len() && tail[i] == x;
                    assert(out[i + 1] == x);
                }
                if x == s.first() {
                    assert(out[0] == x);
                }
            }
        }
    }
}

/// No element occurs twice among the distinct elements of a sequence.
pub proof fn lemma_distinct_from_no_duplicates<T>(s: Seq<T>, seen: Set<T>)
    ensures
        distinct_from(s, seen).no_duplicates(),
    decreases s.len(),
{
    if s.len() != 0 {
        let rest = s.drop_first();
        if seen.contains(s.first()) {
            lemma_distinct_from_no_duplicates(rest, seen);
        } else {
            let tail = distinct_from(rest, seen.insert(s.first()));
            let out = seq![s.first()] + tail;
            lemma_distinct_from_no_duplicates(rest, seen.insert(s.first()));
            lemma_distinct_from_contains(rest, seen.insert(s.first()), s.first());
            assert forall|i: int, j: int|
                0 <= i < out.len() && 0 <= j < out.len() && i != j implies out[i] != out[j] by {
                if i == 0 {
                    assert(tail[j - 1] == out[j]);
                } else if j == 0 {
                    assert(tail[i - 1] == out[i]);
                } else {
                    assert(tail[i - 1] == out[i]);
                    assert(tail[j - 1] == out[j]);
                }
            }
        }
    }
}

/// A sequence without repeated elements, none of them in `seen`, is its own
/// sequence of distinct elements.
pub proof fn lemma_distinct_from_fixes<T>(s: Seq<T>, seen: Set<T>)
    requires
        s.no_duplicates(),
        forall|i: int| 0 <= i < s.len() ==> !seen.contains(#[trigger] s[i]),
    ensures
        distinct_from(s, seen) == s,
    decreases s.len(),
{
    if s.len() != 0 {
        let rest = s.drop_first();
        assert(!seen.contains(s[0]));
        assert forall|i: int| 0 <= i < rest.len() implies !seen.insert(s.first()).contains(
            #[trigger] rest[i],
        ) by {
            assert(rest[i] == s[i + 1]);
        }
        assert(rest.no_duplicates()) by {
            assert forall|i: int, j: int|
                0 <= i < rest.len() && 0 <= j < rest.len() && i != j implies rest[i] != rest[j] by {
                assert(rest[i] == s[i + 1]);
                assert(rest[j] == s[j + 1]);
            }
        }
        lemma_distinct_from_fixes(rest, seen.insert(s.first()));
        assert(seq![s.first()] + rest =~= s);
    } else {
        assert(s =~= Seq::<T>::empty());
    }
}

/// The distinct elements of one sequence followed by another are those of
/// the first, then those of the second that the first does not hold.
pub proof fn lemma_distinct_from_add<T>(a: Seq<T>, b: Seq<T>, seen: Set<T>)
    ensures
        distinct_from(a + b, seen) == distinct_from(a, seen) + distinct_from(
            b,
            seen.union(a.to_set()),
        ),
    decreases a.len(),
{
    if a.len() == 0 {
        assert(a + b =~= b);
        assert(seen.union(a.to_set()) =~= seen);
        assert(Seq::<T>::empty() + distinct_from(b, seen) =~= distinct_from(b, seen));
    } else {
        let rest = a.drop_first();
        assert((a + b).drop_first() =~= rest + b);
        assert((a + b).first() == a.first());
        assert forall|x: T| a.to_set().contains(x) <==> x == a.first() || rest.to_set().contains(
            x,
        ) by {
            if a.contains(x) {
                let i = choose|i: int| 0 <= i < a.len() && a[i] == x;
                if i > 0 {
                    assert(rest[i - 1] == x);
                }
            }
            if rest.contains(x) {
                let i = choose|i: int| 0 <= i < rest.len() && rest[i] == x;
                assert(a[i + 1] == x);
            }
            if x == a.first() {
                assert(a[0] == x);
            }
        }
        if seen.contains(a.first()) {
            lemma_distinct_from_add(rest, b, seen);
            assert(seen.union(a.to_set()) =~= seen.union(rest.to_set()));
        } else {
            let more = seen.insert(a.first());
            lemma_distinct_from_add(rest, b, more);
            assert(seen.union(a.to_set()) =~= more.union(rest.to_set()));
            assert(seq![a.first()] + (distinct_from(rest, more) + distinct_from(
                b,
                more.union(rest.to_set()),
            )) =~= (seq![a.first()] + distinct_from(rest, more)) + distinct_from(
                b,
                more.union(rest.to_set()),
            ));
        }
    }
}

/// Seen elements only take away: the distinct elements of `s` from `seen`
/// and `more` are those from `seen` that `more` does not hold.
pub proof fn lemma_distinct_from_more<T>(s: Seq<T>, seen: Set<T>, more: Set<T>)
    ensures
        distinct_from(s, seen.union(more)) == distinct_from(s, seen).filter(
            |x: T| !more.contains(x),
        ),
    decreases s.len(),
{
    let fresh = |x: T| !more.contains(x);
    if s.len() == 0 {
        assert(distinct_from(s, seen).filter(fresh) =~= Seq::<T>::empty()) by {
            distinct_from(s, seen).lemma_filter_len(fresh);
        }
    } else {
        let rest = s.drop_first();
        let x = s.first();
        if seen.contains(x) {
            lemma_distinct_from_more(rest, seen, more);
        } else {
            let tail = distinct_from(rest, seen.insert(x));
            lemma_distinct_from_more(rest, seen.insert(x), more);
            assert(seen.insert(x).union(more) =~= seen.union(more).insert(x));
            lemma_filter_head(seq![x] + tail, fresh);
            assert((seq![x] + tail).drop_first() =~= tail);
            if more.contains(x) {
                assert(seen.union(more).insert(x) =~= seen.union(more));
            }
        }
    }
}

} // verus!
