//! The two capabilities that a caller supplies, a bisectable state and an
//! issue predicate over it, and the laws that a search relies on.
//!
//! Both traits can be implemented in ordinary Rust: the ghost functions that
//! model a state and an issue (`midpoint`, `distance`, `present`) have default
//! bodies, which speak of whatever the executable methods return. A verified
//! implementation overrides them with its own model and proves the laws; any
//! other one is taken to obey them.

use vstd::prelude::*;
use vstd::std_specs::cmp::PartialEqSpec;

verus! {

/// Whether bisecting with `mid` converges under the metric `d`: two distinct
/// states are a positive distance apart; a midpoint is the far end exactly when
/// the two ends are adjacent, that is at distance 1; and any other midpoint is
/// strictly closer to each end than the ends are to each other.
pub open spec fn shrinks<S, E>(
    mid: spec_fn(S, S) -> Result<S, E>,
    d: spec_fn(S, S) -> nat,
) -> bool {
    forall|a: S, b: S|
        a != b ==> {
            &&& d(a, b) > 0
            &&& match #[trigger] mid(a, b) {
                Ok(m) => {
                    &&& m == b <==> d(a, b) == 1
                    &&& m != b ==> d(a, m) < d(a, b) && d(m, b) < d(a, b)
                },
                Err(_) => true,
            }
        }
}

/// A point in an ordered, bisectable search space.
pub trait State: PartialEq + Clone + Sized {
    /// What `bisect` fails with when no midpoint can be computed.
    type Error;

    /// What `bisect` returns for `self` and `end`, as a function of the two.
    open spec fn midpoint(&self, end: &Self) -> Result<Self, Self::Error> {
        choose|m: Result<Self, Self::Error>| call_ensures(Self::bisect, (self, end), m)
    }

    /// The distance from `self` to `end`: by default, some metric under which
    /// bisecting converges.
    open spec fn distance(&self, end: &Self) -> nat {
        let mid = |a: Self, b: Self| a.midpoint(&b);
        (choose|d: spec_fn(Self, Self) -> nat| #[trigger] shrinks(mid, d))(*self, *end)
    }

    /// Computes a state between `self` and `end`, or `end` itself where
    /// nothing lies between the two.
    fn bisect(&self, end: &Self) -> Result<Self, Self::Error>;
}

/// A stateless predicate over states: whether the issue shows in a state.
pub trait Issue<S: State> {
    /// Whether the issue shows in `state`: what `exists_in` returns for it.
    open spec fn present(state: &S) -> bool {
        choose|found: bool| call_ensures(Self::exists_in, (state,), found)
    }

    /// Decides whether the issue shows in `state`.
    fn exists_in(state: &S) -> bool;
}

/// `==` on states decides whether they are the same state.
pub open spec fn equality_is_identity<S: State>() -> bool {
    &&& S::obeys_eq_spec()
    &&& forall|a: S, b: S| #[trigger] a.eq_spec(&b) <==> a == b
}

/// A clone of a state is that state.
pub open spec fn clone_is_identity<S: State>() -> bool {
    forall|a: S, b: S| #[trigger] call_ensures(S::clone, (&a,), b) ==> a == b
}

/// `bisect` is a function of its two operands: it returns their `midpoint`.
pub open spec fn bisect_is_pure<S: State>() -> bool {
    forall|a: S, b: S, m: Result<S, S::Error>| #[trigger]
        call_ensures(S::bisect, (&a, &b), m) ==> m == a.midpoint(&b)
}

/// Bisecting converges under the state's own `distance`.
pub open spec fn bisect_converges<S: State>() -> bool {
    shrinks(|a: S, b: S| a.midpoint(&b), |a: S, b: S| a.distance(&b))
}

/// The laws of a state that a search relies on.
pub open spec fn lawful_state<S: State>() -> bool {
    &&& equality_is_identity::<S>()
    &&& clone_is_identity::<S>()
    &&& bisect_is_pure::<S>()
    &&& bisect_converges::<S>()
}

/// The law of an issue that a search relies on: `exists_in` is a function of
/// the state, and returns whether the issue is `present` in it.
pub open spec fn lawful_issue<I: Issue<S>, S: State>() -> bool {
    forall|s: S, found: bool| #[trigger]
        call_ensures(I::exists_in, (&s,), found) ==> found == I::present(&s)
}

/// Two states with nothing between them.
pub open spec fn adjacent<S: State>(a: S, b: S) -> bool {
    a.distance(&b) == 1
}

/// What the convergence of a lawful state says of one pair of distinct
/// states: they are a positive distance apart, and their midpoint is the far
/// end exactly when they are adjacent, and otherwise strictly closer to each
/// of them than they are to each other.
pub proof fn lemma_bisect_converges<S: State>(a: S, b: S)
    requires
        lawful_state::<S>(),
        a != b,
    ensures
        a.distance(&b) > 0,
        match a.midpoint(&b) {
            Ok(m) => {
                &&& m == b <==> adjacent(a, b)
                &&& m != b ==> a.distance(&m) < a.distance(&b) && m.distance(&b) < a.distance(&b)
            },
            Err(_) => true,
        },
{
    let mid = |x: S, y: S| x.midpoint(&y);
    assert(mid(a, b) == a.midpoint(&b));
}

} // verus!
