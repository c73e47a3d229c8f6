//! Functions that a caller hands in.
//!
//! Where a computation is left to the caller (it may use floating point, say), the
//! contracts speak of the answers that the caller's function gives. They say most
//! where it is settled: where it gives one answer to each question.
use vstd::prelude::*;

verus! {

/// Whether `f` gives one answer to each question.
pub open spec fn settled<A, B: View, F: Fn(A) -> B>(f: F) -> bool {
    forall|a: A, b: B, c: B| #[trigger]
        call_ensures(f, (a,), b) && #[trigger] call_ensures(f, (a,), c) ==> b@ == c@
}

/// What `f` answers to `a`.
pub open spec fn answer<A, B: View, F: Fn(A) -> B>(f: F, a: A) -> B::V {
    (choose|b: B| call_ensures(f, (a,), b))@
}

/// An answer of a settled function is the answer.
pub proof fn lemma_answer<A, B: View, F: Fn(A) -> B>(f: F, a: A, b: B)
    requires
        call_ensures(f, (a,), b),
    ensures
        settled(f) ==> b@ == answer(f, a),
{
}

/// Whether `f` gives one answer to each text.
pub open spec fn settled_on_text<N, F: Fn(&str) -> Option<N>>(f: F) -> bool {
    forall|s: &str, t: &str, b: Option<N>, c: Option<N>|
        s@ == t@ && #[trigger] call_ensures(f, (s,), b) && #[trigger] call_ensures(f, (t,), c)
            ==> b == c
}

/// Whether `f` may answer `b` to the text `t`.
pub open spec fn may_answer<N, F: Fn(&str) -> Option<N>>(f: F, t: Seq<char>, b: Option<N>) -> bool {
    exists|s: &str| s@ == t && #[trigger] call_ensures(f, (s,), b)
}

/// What `f` answers to the text `t`.
pub open spec fn text_answer<N, F: Fn(&str) -> Option<N>>(f: F, t: Seq<char>) -> Option<N> {
    choose|b: Option<N>| may_answer(f, t, b)
}

/// An answer of a settled function is the answer.
pub proof fn lemma_text_answer<N, F: Fn(&str) -> Option<N>>(f: F, s: &str, b: Option<N>)
    requires
        call_ensures(f, (s,), b),
    ensures
        settled_on_text(f) ==> b == text_answer(f, s@),
{
    assert(may_answer(f, s@, b));
}

/// Whether `f` gives one answer to each list.
pub open spec fn settled_on_lists<T, N, F: Fn(&[T]) -> N>(f: F) -> bool {
    forall|s: &[T], t: &[T], b: N, c: N|
        s@ == t@ && #[trigger] call_ensures(f, (s,), b) && #[trigger] call_ensures(f, (t,), c)
            ==> b == c
}

/// Whether `f` may answer `b` to the list `t`.
pub open spec fn may_answer_list<T, N, F: Fn(&[T]) -> N>(f: F, t: Seq<T>, b: N) -> bool {
    exists|s: &[T]| s@ == t && #[trigger] call_ensures(f, (s,), b)
}

/// What `f` answers to the list `t`.
pub open spec fn list_answer<T, N, F: Fn(&[T]) -> N>(f: F, t: Seq<T>) -> N {
    choose|b: N| may_answer_list(f, t, b)
}

/// An answer of a settled function is the answer.
pub proof fn lemma_list_answer<T, N, F: Fn(&[T]) -> N>(f: F, s: &[T], b: N)
    requires
        call_ensures(f, (s,), b),
    ensures
        settled_on_lists(f) ==> b == list_answer(f, s@),
{
    assert(may_answer_list(f, s@, b));
}

/// Whether `f` gives one answer to each question, whatever holds the question.
pub open spec fn settled_on_views<A: View, B: View, F: Fn(A) -> B>(f: F) -> bool {
    forall|a: A, c: A, b: B, d: B|
        a@ == c@ && #[trigger] call_ensures(f, (a,), b) && #[trigger] call_ensures(f, (c,), d)
            ==> b@ == d@
}

/// Whether `f` may answer `b` to the question `q`.
pub open spec fn may_answer_view<A: View, B: View, F: Fn(A) -> B>(f: F, q: A::V, b: B) -> bool {
    exists|a: A| a@ == q && #[trigger] call_ensures(f, (a,), b)
}

/// What `f` answers to the question `q`.
pub open spec fn view_answer<A: View, B: View, F: Fn(A) -> B>(f: F, q: A::V) -> B::V {
    (choose|b: B| may_answer_view(f, q, b))@
}

/// An answer of a settled function is the answer.
pub proof fn lemma_view_answer<A: View, B: View, F: Fn(A) -> B>(f: F, a: A, b: B)
    requires
        call_ensures(f, (a,), b),
    ensures
        settled_on_views(f) ==> b@ == view_answer(f, a@),
{
    assert(may_answer_view(f, a@, b));
}

} // verus!
