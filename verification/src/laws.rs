//! What holds across operators.
//!
//! Each law speaks of producers through their models. A producer enters a
//! law by what the operator that made it ensures of its `remaining()`, so a
//! caller who has made the calls has the premises at hand.

use crate::concate::QConcate;
use crate::distinct::{
    distinct_from, distinct_seq, lemma_distinct_from_add, lemma_distinct_from_contains,
    lemma_distinct_from_fixes, lemma_distinct_from_more, lemma_distinct_from_no_duplicates,
    DistinctIterator,
};
use crate::model::lemma_filter_head;
use crate::order_by::{key_order, lemma_key_order_total, OrderedIterator};
use crate::queryable::Queryable;
use crate::select::SelectIterator;
use crate::sorting::{
    lemma_stable_sort_permutes, lemma_stable_sort_sorted, lemma_stable_sort_stable, stable_sort,
};
use crate::union::UnionIterator;
use crate::where_by::QWhere;
use std::hash::Hash;
use vstd::prelude::*;
use vstd::relations::sorted_by;

verus! {

/// Filtering and projecting done by hand: the elements of `s` are visited
/// first to last, and `to` of each one that `keep` accepts is emitted.
pub open spec fn filter_then_map<A, B>(
    s: Seq<A>,
    keep: spec_fn(A) -> bool,
    to: spec_fn(A) -> B,
) -> Seq<B>
    decreases s.len(),
{
    if s.len() == 0 {
        Seq::empty()
    } else if keep(s.first()) {
        seq![to(s.first())] + filter_then_map(s.drop_first(), keep, to)
    } else {
        filter_then_map(s.drop_first(), keep, to)
    }
}

/// The filter and the projection of sequences agree with filtering and
/// projecting by hand.
pub proof fn lemma_filter_then_map<A, B>(s: Seq<A>, keep: spec_fn(A) -> bool, to: spec_fn(A) -> B)
    ensures
        s.filter(keep).map_values(to) == filter_then_map(s, keep, to),
    decreases s.len(),
{
    if s.len() == 0 {
        assert(s.filter(keep) =~= Seq::<A>::empty()) by {
            s.lemma_filter_len(keep);
        }
        assert(s.filter(keep).map_values(to) =~= Seq::<B>::empty());
    } else {
        lemma_filter_head(s, keep);
        lemma_filter_then_map(s.drop_first(), keep, to);
        let rest = s.drop_first().filter(keep);
        if keep(s.first()) {
            assert((seq![s.first()] + rest).map_values(to) =~= seq![to(s.first())]
                + rest.map_values(to));
        }
    }
}

/// `where_by` followed by `select` yields, element by element, what
/// filtering and projecting by hand yields.
pub proof fn law_where_by_then_select<Q, P, B, F>(
    source: Q,
    keep: spec_fn(Q::Item) -> bool,
    to: spec_fn(Q::Item) -> B,
    filtered: QWhere<Q, P>,
    selected: SelectIterator<QWhere<Q, P>, F, B>,
) where Q: Queryable, P: Fn(&Q::Item) -> bool, F: Fn(Q::Item) -> B
    requires
        filtered.remaining() == source.remaining().filter(keep),
        selected.remaining() == filtered.remaining().map_values(to),
    ensures
        selected.remaining() == filter_then_map(source.remaining(), keep, to),
{
    lemma_filter_then_map(source.remaining(), keep, to);
}

/// Filtering a reversed sequence is reversing the filtered sequence.
pub proof fn lemma_filter_reverse<T>(s: Seq<T>, pred: spec_fn(T) -> bool)
    ensures
        s.reverse().filter(pred) == s.filter(pred).reverse(),
    decreases s.len(),
{
    reveal(Seq::filter);
    if s.len() == 0 {
        assert(s.reverse() =~= s);
        assert(s.filter(pred) =~= Seq::<T>::empty());
        assert(s.filter(pred).reverse() =~= Seq::<T>::empty());
    } else {
        let front = s.drop_last();
        lemma_filter_reverse(front, pred);
        lemma_filter_head(s.reverse(), pred);
        assert(s.reverse().first() == s.last());
        assert(s.reverse().drop_first() =~= front.reverse());
        if pred(s.last()) {
            assert(front.filter(pred).push(s.last()).reverse() =~= seq![s.last()] + front.filter(
                pred,
            ).reverse());
        }
    }
}

/// Sorting a sequence by a key in descending order yields the reverse of
/// sorting it in ascending order, and the other way round. Elements with
/// equal keys are no exception, so their order flips between the two: for
/// every class of elements whose keys are equal, the ascending order holds
/// the members of the class in their order in the input, the descending
/// order in the reverse of it.
pub proof fn law_order_by_descending_reverses<T, K: PartialOrd>(
    input: Seq<T>,
    key: spec_fn(T) -> K,
    ascending: OrderedIterator<T>,
    descending: OrderedIterator<T>,
    class: spec_fn(T) -> bool,
)
    requires
        ascending.remaining() == stable_sort(input, key_order(key)),
        descending.remaining() == stable_sort(input, key_order(key)).reverse(),
        forall|x: T, y: T| class(x) && class(y) ==> #[trigger] key_order(key)(x, y),
    ensures
        descending.remaining() == ascending.remaining().reverse(),
        ascending.remaining() == descending.remaining().reverse(),
        ascending.remaining().filter(class) == input.filter(class),
        descending.remaining().filter(class) == input.filter(class).reverse(),
{
    let sorted = stable_sort(input, key_order(key));
    assert(sorted.reverse().reverse() =~= sorted);
    lemma_stable_sort_stable(input, key_order(key), class);
    lemma_filter_reverse(sorted, class);
}

/// `distinct` applied twice yields what `distinct` applied once yields.
pub proof fn law_distinct_idempotent<I: Queryable>(
    source: I,
    once: DistinctIterator<I>,
    twice: DistinctIterator<DistinctIterator<I>>,
) where I::Item: Eq + Hash + Copy
    requires
        once.remaining() == distinct_seq(source.remaining()),
        twice.remaining() == distinct_seq(once.remaining()),
    ensures
        twice.remaining() == once.remaining(),
{
    lemma_distinct_seq_idempotent(source.remaining());
}

/// The distinct elements of the distinct elements of a sequence are the
/// distinct elements of that sequence.
pub proof fn lemma_distinct_seq_idempotent<T>(s: Seq<T>)
    ensures
        distinct_seq(distinct_seq(s)) == distinct_seq(s),
{
    lemma_distinct_from_no_duplicates(s, Set::empty());
    lemma_distinct_from_fixes(distinct_seq(s), Set::empty());
}

/// The union of two sequences holds exactly the elements of either, each
/// once: first the distinct elements of the first sequence, in the order of
/// their first occurrence, then the distinct elements of the second that the
/// first does not hold, in the order of theirs.
pub proof fn law_union<I: Queryable, U: Queryable<Item = I::Item>>(
    first: I,
    second: U,
    united: UnionIterator<I, U>,
) where I::Item: Eq + Hash + Copy
    requires
        united.remaining() == distinct_seq(first.remaining() + second.remaining()),
    ensures
        united.remaining().no_duplicates(),
        united.remaining().to_set() == first.remaining().to_set().union(
            second.remaining().to_set(),
        ),
        united.remaining() == distinct_seq(first.remaining()) + distinct_seq(
            second.remaining(),
        ).filter(|x: I::Item| !first.remaining().contains(x)),
{
    lemma_union_seq(first.remaining(), second.remaining());
}

/// What [`law_union`] states, of the sequences themselves.
pub proof fn lemma_union_seq<T>(a: Seq<T>, b: Seq<T>)
    ensures
        distinct_seq(a + b).no_duplicates(),
        distinct_seq(a + b).to_set() == a.to_set().union(b.to_set()),
        distinct_seq(a + b) == distinct_seq(a) + distinct_seq(b).filter(|x: T| !a.contains(x)),
{
    let none = Set::<T>::empty();
    lemma_distinct_from_no_duplicates(a + b, none);
    assert forall|x: T| distinct_seq(a + b).to_set().contains(x) <==> a.to_set().union(
        b.to_set(),
    ).contains(x) by {
        lemma_distinct_from_contains(a + b, none, x);
        if (a + b).contains(x) {
            let i = choose|i: int| 0 <= i < (a + b).len() && (a + b)[i] == x;
            if i < a.len() {
                assert(a[i] == x);
            } else {
                assert(b[i - a.len()] == x);
            }
        }
        if a.contains(x) {
            let i = choose|i: int| 0 <= i < a.len() && a[i] == x;
            assert((a + b)[i] == x);
        }
        if b.contains(x) {
            let i = choose|i: int| 0 <= i < b.len() && b[i] == x;
            assert((a + b)[a.len() + i] == x);
        }
    }
    assert(distinct_seq(a + b).to_set() =~= a.to_set().union(b.to_set()));
    lemma_distinct_from_add(a, b, none);
    lemma_distinct_from_more(b, none, a.to_set());
    assert(none.union(a.to_set()) =~= a.to_set());
    let novel = |x: T| !a.to_set().contains(x);
    let absent = |x: T| !a.contains(x);
    assert(novel =~= absent) by {
        assert forall|x: T| #[trigger] novel(x) == absent(x) by {}
    }
}

/// A concatenation has as many elements as its two parts together, and
/// once the elements of the first part have been taken, what remains is a
/// tail of the second part: the first part is not visited again.
pub proof fn law_concate<A: Queryable, B: Queryable<Item = A::Item>>(
    first: A,
    second: B,
    joined: QConcate<A, B>,
    taken: int,
)
    requires
        joined.remaining() == first.remaining() + second.remaining(),
        first.remaining().len() <= taken <= joined.remaining().len(),
    ensures
        joined.remaining().len() == first.remaining().len() + second.remaining().len(),
        joined.remaining().skip(taken) == second.remaining().skip(
            taken - first.remaining().len(),
        ),
{
    assert((first.remaining() + second.remaining()).skip(taken) =~= second.remaining().skip(
        taken - first.remaining().len(),
    ));
}

/// Sorting by a key puts the elements in the order of their keys and only
/// rearranges them: the result holds every element as often as the input
/// does.
pub proof fn law_order_by_sorts<T, K: Ord>(
    input: Seq<T>,
    key: spec_fn(T) -> K,
    ascending: OrderedIterator<T>,
)
    requires
        vstd::laws_cmp::obeys_cmp::<K>(),
        ascending.remaining() == stable_sort(input, key_order(key)),
    ensures
        sorted_by(ascending.remaining(), key_order(key)),
        ascending.remaining().to_multiset() == input.to_multiset(),
{
    lemma_key_order_total(key);
    lemma_stable_sort_sorted(input, key_order(key));
    lemma_stable_sort_permutes(input, key_order(key));
}

} // verus!
