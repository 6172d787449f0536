//! A verified instance of the two capabilities: states on the number line,
//! bisected by their arithmetic mean, and the issue that shows up to a limit.

use crate::bisector::{bracketed, search};
use crate::state::{lawful_issue, lawful_state, lemma_bisect_converges, Issue, State};
use vstd::prelude::*;
use vstd::std_specs::cmp::PartialEqSpecImpl;

verus! {

/// The sum of the two ends of a bracket does not fit in a `u32`.
#[derive(Debug, Clone, Copy, PartialEq, Eq)]
pub struct Overflow;

/// A point on the number line.
#[derive(Debug, Clone, Copy)]
pub struct IntState {
    pub value: u32,
}

impl PartialEq for IntState {
    fn eq(&self, other: &Self) -> (r: bool) {
        self.value == other.value
    }
}

impl Eq for IntState {

}

impl PartialEqSpecImpl for IntState {
    open spec fn obeys_eq_spec() -> bool {
        true
    }

    open spec fn eq_spec(&self, other: &Self) -> bool {
        self.value == other.value
    }
}

impl State for IntState {
    type Error = Overflow;

    /// The mean of the two values, rounded down; the far end where the two
    /// are adjacent; a failure where their sum overflows.
    open spec fn midpoint(&self, end: &Self) -> Result<Self, Overflow> {
        if self.value + end.value > u32::MAX {
            Err(Overflow)
        } else if self.distance(end) == 1 {
            Ok(*end)
        } else {
            Ok(IntState { value: ((self.value + end.value) / 2) as u32 })
        }
    }

    /// The absolute difference of the two values.
    open spec fn distance(&self, end: &Self) -> nat {
        if self.value <= end.value {
            (end.value - self.value) as nat
        } else {
            (self.value - end.value) as nat
        }
    }

    fn bisect(&self, end: &Self) -> (mid: Result<Self, Overflow>)
        ensures
            mid == self.midpoint(end),
    {
        match self.value.checked_add(end.value) {
            None => Err(Overflow),
            Some(sum) => {
                let dist: u32 = if self.value > end.value {
                    self.value - end.value
                } else {
                    end.value - self.value
                };
                if dist == 1 {
                    Ok(IntState { value: end.value })
                } else {
                    Ok(IntState { value: sum / 2 })
                }
            },
        }
    }
}

/// The issue that shows in every state up to `LIMIT` and in none above it.
pub struct AtMost<const LIMIT: u32>;

impl<const LIMIT: u32> Issue<IntState> for AtMost<LIMIT> {
    open spec fn present(state: &IntState) -> bool {
        state.value <= LIMIT
    }

    fn exists_in(state: &IntState) -> (found: bool)
        ensures
            found == Self::present(state),
    {
        state.value <= LIMIT
    }
}

/// Points on the number line obey the laws of a state.
pub proof fn lemma_int_state_lawful()
    ensures
        lawful_state::<IntState>(),
{
}

/// A limit obeys the law of an issue.
pub proof fn lemma_at_most_lawful<const LIMIT: u32>()
    ensures
        lawful_issue::<AtMost<LIMIT>, IntState>(),
{
}

/// A probe whose two ends sum to more than a `u32` holds ends the search
/// at once.
pub proof fn lemma_overflow_ends_search<I: Issue<IntState>>(l: IntState, r: IntState)
    requires
        bracketed::<I, IntState>(l, r),
        l.value + r.value > u32::MAX,
    ensures
        search::<I, IntState>(l, r) == (1nat, Err::<IntState, Overflow>(Overflow)),
{
    lemma_int_state_lawful();
}

/// The number of binary digits of `n`.
pub open spec fn bit_length(n: nat) -> nat
    decreases n,
{
    if n == 0 {
        0
    } else {
        1 + bit_length(n / 2)
    }
}

proof fn lemma_bit_length_monotone(a: nat, b: nat)
    requires
        a <= b,
    ensures
        bit_length(a) <= bit_length(b),
    decreases b,
{
    if a > 0 {
        lemma_bit_length_monotone(a / 2, b / 2);
    }
}

/// Whatever the issue, a search on the number line halves its bracket with
/// each probe: over a distance `d` it makes at most one probe more than
/// `d - 1` has binary digits and, unless a probe fails, at least as many as
/// `d` has.
pub proof fn lemma_halving_steps<I: Issue<IntState>>(l: IntState, r: IntState)
    requires
        bracketed::<I, IntState>(l, r),
    ensures
        search::<I, IntState>(l, r).0 <= bit_length((l.distance(&r) - 1) as nat) + 1,
        search::<I, IntState>(l, r).1 is Ok ==> bit_length(l.distance(&r)) <= search::<
            I,
            IntState,
        >(l, r).0,
    decreases l.distance(&r),
{
    lemma_int_state_lawful();
    lemma_bisect_converges::<IntState>(l, r);
    let d = l.distance(&r);
    assert(bit_length(0) == 0);
    assert(bit_length(d) == 1 + bit_length(d / 2));
    if let Ok(n) = l.midpoint(&r) {
        if n != r {
            let (nl, nr) = if I::present(&n) {
                (n, r)
            } else {
                (l, n)
            };
            let nd = nl.distance(&nr);
            lemma_halving_steps::<I>(nl, nr);
            assert(d / 2 <= nd <= (d + 1) / 2);
            assert(bit_length((d - 1) as nat) == 1 + bit_length(((d - 1) / 2) as nat));
            lemma_bit_length_monotone((nd - 1) as nat, ((d - 1) / 2) as nat);
            lemma_bit_length_monotone(d / 2, nd);
        }
    }
}

/// Between a state up to the limit and a state above it, a search returns
/// the first state above the limit, unless the sum of two ends overflowed on
/// the way, which takes a limit and an end that together exceed a `u32`.
pub proof fn lemma_threshold_boundary<const LIMIT: u32>(l: IntState, r: IntState)
    requires
        l.value <= LIMIT < r.value,
    ensures
        match search::<AtMost<LIMIT>, IntState>(l, r).1 {
            Ok(n) => n.value == LIMIT + 1,
            Err(_) => LIMIT + r.value > u32::MAX,
        },
    decreases l.distance(&r),
{
    lemma_int_state_lawful();
    lemma_bisect_converges::<IntState>(l, r);
    if let Ok(n) = l.midpoint(&r) {
        if n.value <= LIMIT {
            lemma_threshold_boundary::<LIMIT>(n, r);
        } else if n != r {
            lemma_threshold_boundary::<LIMIT>(l, n);
        }
    }
}

} // verus!
