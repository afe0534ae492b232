//! Functions handed in by a caller, seen as mathematical functions.
use vstd::prelude::*;

verus! {

/// Whether a function takes every argument and gives one result for it.
pub open spec fn settled1<A, R, F: Fn(A) -> R>(f: F) -> bool {
    &&& forall|a: A| #[trigger] call_requires(f, (a,))
    &&& forall|a: A, r: R, s: R| #[trigger]
        call_ensures(f, (a,), r) && #[trigger] call_ensures(f, (a,), s) ==> r == s
}

/// What a function gives.
pub open spec fn gives1<A, R, F: Fn(A) -> R>(f: F, a: A) -> R {
    choose|r: R| #[trigger] call_ensures(f, (a,), r)
}

/// Whether a function takes every argument and gives one text for it.
pub open spec fn worded1<A, F: Fn(A) -> String>(f: F) -> bool {
    &&& forall|a: A| #[trigger] call_requires(f, (a,))
    &&& forall|a: A, r: String, s: String| #[trigger]
        call_ensures(f, (a,), r) && #[trigger] call_ensures(f, (a,), s) ==> r@ == s@
}

/// The text that a function gives.
pub open spec fn words1<A, F: Fn(A) -> String>(f: F, a: A) -> Seq<char> {
    (choose|r: String| #[trigger] call_ensures(f, (a,), r))@
}

/// Whether a function takes every two arguments and gives one result for them.
pub open spec fn settled2<A, B, R, F: Fn(A, B) -> R>(f: F) -> bool {
    &&& forall|a: A, b: B| #[trigger] call_requires(f, (a, b))
    &&& forall|a: A, b: B, r: R, s: R| #[trigger]
        call_ensures(f, (a, b), r) && #[trigger] call_ensures(f, (a, b), s) ==> r == s
}

/// What a function gives.
pub open spec fn gives2<A, B, R, F: Fn(A, B) -> R>(f: F, a: A, b: B) -> R {
    choose|r: R| #[trigger] call_ensures(f, (a, b), r)
}

/// Whether a function takes every two arguments and gives one text for them.
pub open spec fn worded2<A, B, F: Fn(A, B) -> String>(f: F) -> bool {
    &&& forall|a: A, b: B| #[trigger] call_requires(f, (a, b))
    &&& forall|a: A, b: B, r: String, s: String| #[trigger]
        call_ensures(f, (a, b), r) && #[trigger] call_ensures(f, (a, b), s) ==> r@ == s@
}

/// The text that a function gives.
pub open spec fn words2<A, B, F: Fn(A, B) -> String>(f: F, a: A, b: B) -> Seq<char> {
    (choose|r: String| #[trigger] call_ensures(f, (a, b), r))@
}

/// Whether a function takes every three arguments and gives one result for them.
pub open spec fn settled3<A, B, C, R, F: Fn(A, B, C) -> R>(f: F) -> bool {
    &&& forall|a: A, b: B, c: C| #[trigger] call_requires(f, (a, b, c))
    &&& forall|a: A, b: B, c: C, r: R, s: R| #[trigger]
        call_ensures(f, (a, b, c), r) && #[trigger] call_ensures(f, (a, b, c), s) ==> r == s
}

/// What a function gives.
pub open spec fn gives3<A, B, C, R, F: Fn(A, B, C) -> R>(f: F, a: A, b: B, c: C) -> R {
    choose|r: R| #[trigger] call_ensures(f, (a, b, c), r)
}

} // verus!
