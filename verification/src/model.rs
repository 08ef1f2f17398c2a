//! How the closures handed to the operators enter the contracts.
//!
//! An operator calls its closure on elements that come later, so its
//! contract has to say ahead of the call what the closure will return: it
//! needs a mathematical function that the closure follows. There are two
//! ways to have one.
//!
//! The caller gives it. The constructors named `with_model` take the
//! closure and, as a ghost argument, the function that describes it. They
//! ask that the closure may be called on every element to come and that
//! whatever its contract lets it return there is what the function says.
//! The operator's contract then speaks of that function alone.
//!
//! Or the closure's own contract fixes it. The constructors without a ghost
//! argument ask that the contract leaves one result only on every element to
//! come, and take as the model the function that picks it. Of that function
//! nothing more is known before the closure has been called, so these
//! constructors are for callers that need no concrete value.
//!
//! A function that builds a query from a closure should be generic over the
//! closure's type, with a `requires` that relates it to the model.

use crate::queryable::Queryable;
use vstd::prelude::*;

verus! {

// Predicates: closures from `&T` to `bool`.
/// `p` may be called on `x`, and every answer that its contract allows is
/// the one that `model` gives.
pub open spec fn answers<T, P: Fn(&T) -> bool>(p: P, model: spec_fn(T) -> bool, x: T) -> bool {
    &&& call_requires(p, (&x,))
    &&& forall|b: bool| call_ensures(p, (&x,), b) ==> b == model(x)
}

/// `p` answers as `model` does on every element of `s`.
pub open spec fn answers_all<T, P: Fn(&T) -> bool>(
    p: P,
    model: spec_fn(T) -> bool,
    s: Seq<T>,
) -> bool {
    forall|i: int| 0 <= i < s.len() ==> answers(p, model, #[trigger] s[i])
}

/// The answer that the contract of `p` fixes for `x`.
pub open spec fn holds<T, P: Fn(&T) -> bool>(p: P, x: T) -> bool {
    choose|b: bool| call_ensures(p, (&x,), b)
}

/// The predicate of `p` as a mathematical function.
pub open spec fn holds_fn<T, P: Fn(&T) -> bool>(p: P) -> spec_fn(T) -> bool {
    |x: T| holds(p, x)
}

/// `p` may be called on `x`, and its contract leaves one answer only.
pub open spec fn decides<T, P: Fn(&T) -> bool>(p: P, x: T) -> bool {
    &&& call_requires(p, (&x,))
    &&& forall|a: bool, b: bool|
        call_ensures(p, (&x,), a) && call_ensures(p, (&x,), b) ==> a == b
}

/// `p` decides every element of `s`.
pub open spec fn decides_all<T, P: Fn(&T) -> bool>(p: P, s: Seq<T>) -> bool {
    forall|i: int| 0 <= i < s.len() ==> decides(p, #[trigger] s[i])
}

/// A predicate that decides an element answers there as its contract fixes.
pub proof fn lemma_decides_answers<T, P: Fn(&T) -> bool>(p: P, x: T)
    requires
        decides(p, x),
    ensures
        answers(p, holds_fn(p), x),
{
}

/// A predicate that decides a sequence answers there as its contract fixes.
pub proof fn lemma_decides_all_answers<T, P: Fn(&T) -> bool>(p: P, s: Seq<T>)
    requires
        decides_all(p, s),
    ensures
        answers_all(p, holds_fn(p), s),
{
    assert forall|i: int| 0 <= i < s.len() implies answers(p, holds_fn(p), #[trigger] s[i]) by {
        lemma_decides_answers(p, s[i]);
    }
}

/// A predicate that answers on a sequence answers on its head and its tail.
pub proof fn lemma_answers_all_tail<T, P: Fn(&T) -> bool>(
    p: P,
    model: spec_fn(T) -> bool,
    s: Seq<T>,
)
    requires
        answers_all(p, model, s),
        s.len() > 0,
    ensures
        answers(p, model, s.first()),
        answers_all(p, model, s.drop_first()),
{
    assert(answers(p, model, s[0]));
    assert forall|i: int| 0 <= i < s.drop_first().len() implies answers(
        p,
        model,
        #[trigger] s.drop_first()[i],
    ) by {
        assert(s.drop_first()[i] == s[i + 1]);
    }
}

// Projections: closures from `A` to `B`.
/// `f` may be called on `x`, and every result that its contract allows is
/// the one that `model` gives.
pub open spec fn computes<A, B, F: Fn(A) -> B>(f: F, model: spec_fn(A) -> B, x: A) -> bool {
    &&& call_requires(f, (x,))
    &&& forall|y: B| call_ensures(f, (x,), y) ==> y == model(x)
}

/// `f` computes what `model` does on every element of `s`.
pub open spec fn computes_all<A, B, F: Fn(A) -> B>(
    f: F,
    model: spec_fn(A) -> B,
    s: Seq<A>,
) -> bool {
    forall|i: int| 0 <= i < s.len() ==> computes(f, model, #[trigger] s[i])
}

/// The result that the contract of `f` fixes for `x`.
pub open spec fn mapped<A, B, F: Fn(A) -> B>(f: F, x: A) -> B {
    choose|y: B| call_ensures(f, (x,), y)
}

/// The projection of `f` as a mathematical function.
pub open spec fn mapped_fn<A, B, F: Fn(A) -> B>(f: F) -> spec_fn(A) -> B {
    |x: A| mapped(f, x)
}

/// `f` may be called on `x`, and its contract leaves one result only.
pub open spec fn maps<A, B, F: Fn(A) -> B>(f: F, x: A) -> bool {
    &&& call_requires(f, (x,))
    &&& forall|y1: B, y2: B| call_ensures(f, (x,), y1) && call_ensures(f, (x,), y2) ==> y1 == y2
}

/// `f` maps every element of `s`.
pub open spec fn maps_all<A, B, F: Fn(A) -> B>(f: F, s: Seq<A>) -> bool {
    forall|i: int| 0 <= i < s.len() ==> maps(f, #[trigger] s[i])
}

/// A projection that maps a sequence computes there what its contract
/// fixes.
pub proof fn lemma_maps_all_computes<A, B, F: Fn(A) -> B>(f: F, s: Seq<A>)
    requires
        maps_all(f, s),
    ensures
        computes_all(f, mapped_fn(f), s),
{
    assert forall|i: int| 0 <= i < s.len() implies computes(f, mapped_fn(f), #[trigger] s[i]) by {
        assert(maps(f, s[i]));
    }
}

// Combiners: closures from `A` and `B` to `R`.
/// `f` may be called on `a` and `b`, and every result that its contract
/// allows is the one that `model` gives.
pub open spec fn pairs<A, B, R, F: Fn(A, B) -> R>(
    f: F,
    model: spec_fn(A, B) -> R,
    a: A,
    b: B,
) -> bool {
    &&& call_requires(f, (a, b))
    &&& forall|r: R| call_ensures(f, (a, b), r) ==> r == model(a, b)
}

/// `f` pairs `a` with every element of `s` as `model` does.
pub open spec fn pairs_all<A, B, R, F: Fn(A, B) -> R>(
    f: F,
    model: spec_fn(A, B) -> R,
    a: A,
    s: Seq<B>,
) -> bool {
    forall|j: int| 0 <= j < s.len() ==> pairs(f, model, a, #[trigger] s[j])
}

/// The result that the contract of `f` fixes for `a` and `b`.
pub open spec fn combined<A, B, R, F: Fn(A, B) -> R>(f: F, a: A, b: B) -> R {
    choose|r: R| call_ensures(f, (a, b), r)
}

/// The combiner of `f` as a mathematical function.
pub open spec fn combined_fn<A, B, R, F: Fn(A, B) -> R>(f: F) -> spec_fn(A, B) -> R {
    |a: A, b: B| combined(f, a, b)
}

/// `f` may be called on `a` and `b`, and its contract leaves one result only.
pub open spec fn combines<A, B, R, F: Fn(A, B) -> R>(f: F, a: A, b: B) -> bool {
    &&& call_requires(f, (a, b))
    &&& forall|r1: R, r2: R|
        call_ensures(f, (a, b), r1) && call_ensures(f, (a, b), r2) ==> r1 == r2
}

/// `f` combines `a` with every element of `s`.
pub open spec fn combines_all<A, B, R, F: Fn(A, B) -> R>(f: F, a: A, s: Seq<B>) -> bool {
    forall|j: int| 0 <= j < s.len() ==> combines(f, a, #[trigger] s[j])
}

/// A combiner that combines an element with a sequence pairs them as its
/// contract fixes.
pub proof fn lemma_combines_all_pairs<A, B, R, F: Fn(A, B) -> R>(f: F, a: A, s: Seq<B>)
    requires
        combines_all(f, a, s),
    ensures
        pairs_all(f, combined_fn(f), a, s),
{
    assert forall|j: int| 0 <= j < s.len() implies pairs(f, combined_fn(f), a, #[trigger] s[j]) by {
        assert(combines(f, a, s[j]));
    }
}

// Unfoldings: closures from `A` to a producer.
/// `f` may be called on `x`, and every producer that its contract allows is
/// well formed and yields what `model` gives.
pub open spec fn unfolds<A, T: Queryable, F: Fn(A) -> T>(
    f: F,
    model: spec_fn(A) -> Seq<T::Item>,
    x: A,
) -> bool {
    &&& call_requires(f, (x,))
    &&& forall|t: T| call_ensures(f, (x,), t) ==> t.inv() && t.remaining() == model(x)
}

/// `f` unfolds every element of `s` as `model` does.
pub open spec fn unfolds_all<A, T: Queryable, F: Fn(A) -> T>(
    f: F,
    model: spec_fn(A) -> Seq<T::Item>,
    s: Seq<A>,
) -> bool {
    forall|i: int| 0 <= i < s.len() ==> unfolds(f, model, #[trigger] s[i])
}

/// What the producer that `f` makes for `x` yields, as the contract of `f`
/// fixes it.
pub open spec fn inner_seq<A, T: Queryable, F: Fn(A) -> T>(f: F, x: A) -> Seq<T::Item> {
    (choose|t: T| call_ensures(f, (x,), t)).remaining()
}

/// The inner sequences of `f` as a mathematical function.
pub open spec fn inner_fn<A, T: Queryable, F: Fn(A) -> T>(f: F) -> spec_fn(A) -> Seq<T::Item> {
    |x: A| inner_seq(f, x)
}

/// `f` may be called on `x`; every producer that its contract allows is well
/// formed, and all of them yield the same sequence.
pub open spec fn expands<A, T: Queryable, F: Fn(A) -> T>(f: F, x: A) -> bool {
    unfolds(f, inner_fn(f), x)
}

/// `f` expands every element of `s`.
pub open spec fn expands_all<A, T: Queryable, F: Fn(A) -> T>(f: F, s: Seq<A>) -> bool {
    unfolds_all(f, inner_fn(f), s)
}

/// An unfolding of a sequence unfolds its head and its tail.
pub proof fn lemma_unfolds_all_tail<A, T: Queryable, F: Fn(A) -> T>(
    f: F,
    model: spec_fn(A) -> Seq<T::Item>,
    s: Seq<A>,
)
    requires
        unfolds_all(f, model, s),
        s.len() > 0,
    ensures
        unfolds(f, model, s.first()),
        unfolds_all(f, model, s.drop_first()),
{
    assert(unfolds(f, model, s[0]));
    assert forall|i: int| 0 <= i < s.drop_first().len() implies unfolds(
        f,
        model,
        #[trigger] s.drop_first()[i],
    ) by {
        assert(s.drop_first()[i] == s[i + 1]);
    }
}

// Clones.
/// Every clone of `x` that the contract of `clone` allows is `x` itself.
pub open spec fn copies<T: Clone>(x: T) -> bool {
    forall|c: T| call_ensures(T::clone, (&x,), c) ==> c == x
}

// Sequences.
/// Filtering a sequence is filtering its head, then its tail.
pub proof fn lemma_filter_head<T>(s: Seq<T>, pred: spec_fn(T) -> bool)
    requires
        s.len() > 0,
    ensures
        s.filter(pred) == if pred(s.first()) {
            seq![s.first()] + s.drop_first().filter(pred)
        } else {
            s.drop_first().filter(pred)
        },
{
    let head = seq![s.first()];
    assert(s =~= head + s.drop_first());
    Seq::filter_distributes_over_add(head, s.drop_first(), pred);
    reveal_with_fuel(Seq::filter, 2);
    assert(head.drop_last() =~= Seq::<T>::empty());
    if pred(s.first()) {
        assert(head.filter(pred) =~= head);
    } else {
        assert(head.filter(pred) =~= Seq::<T>::empty());
        assert(Seq::<T>::empty() + s.drop_first().filter(pred) =~= s.drop_first().filter(pred));
    }
}

/// Flattening a sequence is its first inner sequence, then the flattened
/// tail.
pub proof fn lemma_flat_map_head<A, B>(s: Seq<A>, f: spec_fn(A) -> Seq<B>)
    requires
        s.len() > 0,
    ensures
        s.flat_map(f) == f(s.first()) + s.drop_first().flat_map(f),
{
    assert(s.map_values(f).drop_first() =~= s.drop_first().map_values(f));
}

/// Flattening nothing gives nothing.
pub proof fn lemma_flat_map_empty<A, B>(s: Seq<A>, f: spec_fn(A) -> Seq<B>)
    requires
        s.len() == 0,
    ensures
        s.flat_map(f) == Seq::<B>::empty(),
{
}

/// How many elements of `s` a search for the first element on which `pred`
/// holds passes: the elements up to that one, itself included, or all of `s`
/// if there is none.
pub open spec fn through<T>(s: Seq<T>, pred: spec_fn(T) -> bool) -> nat
    decreases s.len(),
{
    if s.len() == 0 {
        0
    } else if pred(s.first()) {
        1
    } else {
        1 + through(s.drop_first(), pred)
    }
}

/// What a search leaves of `s`: the elements behind the first on which
/// `pred` holds, or nothing if there is none.
pub open spec fn beyond<T>(s: Seq<T>, pred: spec_fn(T) -> bool) -> Seq<T> {
    s.skip(through(s, pred) as int)
}

/// A search passes no more elements than there are.
pub proof fn lemma_through_bound<T>(s: Seq<T>, pred: spec_fn(T) -> bool)
    ensures
        through(s, pred) <= s.len(),
    decreases s.len(),
{
    if s.len() > 0 && !pred(s.first()) {
        lemma_through_bound(s.drop_first(), pred);
    }
}

/// What a search leaves: nothing of nothing; the tail, if `pred` holds on
/// the head; else what the search leaves of the tail.
pub proof fn lemma_beyond_head<T>(s: Seq<T>, pred: spec_fn(T) -> bool)
    ensures
        beyond(s, pred) == if s.len() == 0 {
            s
        } else if pred(s.first()) {
            s.drop_first()
        } else {
            beyond(s.drop_first(), pred)
        },
{
    if s.len() == 0 {
        assert(s.skip(0) =~= s);
    } else if pred(s.first()) {
        assert(s.skip(1) =~= s.drop_first());
    } else {
        lemma_through_bound(s.drop_first(), pred);
        assert(s.skip(1 + through(s.drop_first(), pred) as int) =~= s.drop_first().skip(
            through(s.drop_first(), pred) as int,
        ));
    }
}

/// Whether `pred` holds on some element of `s`.
pub open spec fn finds<T>(s: Seq<T>, pred: spec_fn(T) -> bool) -> bool
    decreases s.len(),
{
    s.len() > 0 && (pred(s.first()) || finds(s.drop_first(), pred))
}

/// The predicate that holds where `pred` does not.
pub open spec fn not_fn<T>(pred: spec_fn(T) -> bool) -> spec_fn(T) -> bool {
    |x: T| !pred(x)
}

/// The first element of `s` on which `pred` holds, if [`finds`] says there
/// is one.
pub open spec fn found<T>(s: Seq<T>, pred: spec_fn(T) -> bool) -> T {
    s[through(s, pred) - 1]
}

/// A search in a sequence is a look at its head, then a search in its tail.
pub proof fn lemma_found_head<T>(s: Seq<T>, pred: spec_fn(T) -> bool)
    requires
        s.len() > 0,
    ensures
        pred(s.first()) ==> finds(s, pred) && found(s, pred) == s.first(),
        !pred(s.first()) ==> finds(s, pred) == finds(s.drop_first(), pred),
        !pred(s.first()) && finds(s, pred) ==> found(s, pred) == found(s.drop_first(), pred),
{
    if !pred(s.first()) && finds(s, pred) {
        lemma_found_within(s.drop_first(), pred);
    }
}

/// A search that finds an element passes at least one element and no more
/// than there are.
pub proof fn lemma_found_within<T>(s: Seq<T>, pred: spec_fn(T) -> bool)
    requires
        finds(s, pred),
    ensures
        1 <= through(s, pred) <= s.len(),
        pred(found(s, pred)),
    decreases s.len(),
{
    if !pred(s.first()) {
        lemma_found_within(s.drop_first(), pred);
    }
}

} // verus!
