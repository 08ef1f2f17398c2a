//! Stable sorting as a mathematical function, and what holds of it.

use vstd::prelude::*;
use vstd::relations::{sorted_by, strongly_connected, transitive};

verus! {

/// The place at which `x` enters `r`: behind the last element that `le`
/// puts before or beside `x`.
pub open spec fn slot<T>(r: Seq<T>, x: T, le: spec_fn(T, T) -> bool) -> int
    decreases r.len(),
{
    if r.len() == 0 || le(r.last(), x) {
        r.len() as int
    } else {
        slot(r.drop_last(), x, le)
    }
}

/// `s` in the order of `le`, elements that `le` does not tell apart staying
/// in their order in `s`: each element of `s` in turn enters what has been
/// sorted before it, at its slot.
pub open spec fn stable_sort<T>(s: Seq<T>, le: spec_fn(T, T) -> bool) -> Seq<T>
    decreases s.len(),
{
    if s.len() == 0 {
        Seq::empty()
    } else {
        let sorted = stable_sort(s.drop_last(), le);
        sorted.insert(slot(sorted, s.last(), le), s.last())
    }
}

/// A slot lies within the sequence or at its end, nothing behind it goes
/// before or beside `x`, and what stands just before it does.
pub proof fn lemma_slot<T>(r: Seq<T>, x: T, le: spec_fn(T, T) -> bool)
    ensures
        0 <= slot(r, x, le) <= r.len(),
        forall|i: int| slot(r, x, le) <= i < r.len() ==> !le(#[trigger] r[i], x),
        slot(r, x, le) > 0 ==> le(r[slot(r, x, le) - 1], x),
    decreases r.len(),
{
    if r.len() != 0 && !le(r.last(), x) {
        lemma_slot(r.drop_last(), x, le);
        assert forall|i: int| slot(r, x, le) <= i < r.len() implies !le(#[trigger] r[i], x) by {
            if i < r.len() - 1 {
                assert(r[i] == r.drop_last()[i]);
            }
        }
    }
}

/// Sorting keeps the number of elements.
pub proof fn lemma_stable_sort_len<T>(s: Seq<T>, le: spec_fn(T, T) -> bool)
    ensures
        stable_sort(s, le).len() == s.len(),
    decreases s.len(),
{
    if s.len() != 0 {
        lemma_stable_sort_len(s.drop_last(), le);
        lemma_slot(stable_sort(s.drop_last(), le), s.last(), le);
    }
}

/// Sorting rearranges: the result holds every element as often as the input
/// does.
pub proof fn lemma_stable_sort_permutes<T>(s: Seq<T>, le: spec_fn(T, T) -> bool)
    ensures
        stable_sort(s, le).to_multiset() == s.to_multiset(),
    decreases s.len(),
{
    if s.len() != 0 {
        let sorted = stable_sort(s.drop_last(), le);
        lemma_stable_sort_permutes(s.drop_last(), le);
        lemma_slot(sorted, s.last(), le);
        vstd::seq_lib::to_multiset_insert(sorted, slot(sorted, s.last(), le), s.last());
        vstd::seq_lib::to_multiset_build(s.drop_last(), s.last());
        assert(s =~= s.drop_last().push(s.last()));
    } else {
        assert(s =~= Seq::<T>::empty());
    }
}

/// Where `le` is transitive and compares any two elements, the result is in
/// the order of `le`.
pub proof fn lemma_stable_sort_sorted<T>(s: Seq<T>, le: spec_fn(T, T) -> bool)
    requires
        transitive(le),
        strongly_connected(le),
    ensures
        sorted_by(stable_sort(s, le), le),
    decreases s.len(),
{
    if s.len() != 0 {
        let sorted = stable_sort(s.drop_last(), le);
        let x = s.last();
        let at = slot(sorted, x, le);
        let out = stable_sort(s, le);
        lemma_stable_sort_sorted(s.drop_last(), le);
        lemma_slot(sorted, x, le);
        assert forall|i: int, j: int| 0 <= i < j < out.len() implies #[trigger] le(
            out[i],
            out[j],
        ) by {
            if j < at {
                assert(le(sorted[i], sorted[j]));
            } else if j == at {
                if i < at - 1 {
                    assert(le(sorted[i], sorted[at - 1]));
                }
            } else if i == at {
                assert(!le(sorted[j - 1], x));
            } else if i < at {
                assert(le(sorted[i], sorted[j - 1]));
            } else {
                assert(le(sorted[i - 1], sorted[j - 1]));
            }
        }
    }
}

/// Sorting is stable: elements that `le` does not tell apart keep their
/// order. For every class of such elements, the members of the class stand
/// in the result in the order in which they stand in the input.
pub proof fn lemma_stable_sort_stable<T>(
    s: Seq<T>,
    le: spec_fn(T, T) -> bool,
    class: spec_fn(T) -> bool,
)
    requires
        forall|x: T, y: T| class(x) && class(y) ==> #[trigger] le(x, y),
    ensures
        stable_sort(s, le).filter(class) == s.filter(class),
    decreases s.len(),
{
    reveal(Seq::filter);
    if s.len() != 0 {
        let sorted = stable_sort(s.drop_last(), le);
        let x = s.last();
        let at = slot(sorted, x, le);
        lemma_stable_sort_stable(s.drop_last(), le, class);
        lemma_slot(sorted, x, le);
        let front = sorted.take(at);
        let back = sorted.skip(at);
        assert(sorted =~= front + back);
        assert(sorted.insert(at, x) =~= front.push(x) + back);
        Seq::filter_distributes_over_add(front, back, class);
        Seq::filter_distributes_over_add(front.push(x), back, class);
        assert(front.push(x).drop_last() =~= front);
        if class(x) {
            assert forall|i: int| 0 <= i < back.len() implies !class(#[trigger] back[i]) by {
                assert(back[i] == sorted[at + i]);
            }
            back.lemma_all_neg_filter_empty(class);
            assert(back.filter(class) =~= Seq::<T>::empty());
            assert(front.push(x).filter(class) + back.filter(class) =~= front.filter(class).push(
                x,
            ));
            assert(front.filter(class) + back.filter(class) =~= front.filter(class));
        }
    }
}

} // verus!
