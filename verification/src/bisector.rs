//! The search itself: its mathematical model, the bisector that runs it, and
//! the laws that hold of every search.

use crate::state::{adjacent, lawful_issue, lawful_state, lemma_bisect_converges, Issue, State};
use std::fmt::Debug;
use std::marker::PhantomData;
use vstd::prelude::*;

verus! {

/// Why a search did not return a boundary.
#[derive(Debug)]
pub enum BisectorError<S: State> {
    /// Both ends of the bracket show the issue.
    BothEndHaveIssue,
    /// Neither end of the bracket shows the issue.
    NoEndHasIssue,
    /// A probe failed; the state's own error is carried unchanged.
    StateStepError(S::Error),
}

/// A bracket that can be searched: the issue shows at `l` and not at `r`.
pub open spec fn bracketed<I: Issue<S>, S: State>(l: S, r: S) -> bool {
    I::present(&l) && !I::present(&r)
}

/// The search from the bracket `(l, r)`: the number of probes it makes, and
/// the boundary it reaches or the failure of its last probe.
///
/// Each probe bisects the bracket. A midpoint that shows the issue becomes the
/// new `l`; one that does not becomes the new `r`, unless it is `r` already,
/// which ends the search.
pub open spec fn search<I: Issue<S>, S: State>(l: S, r: S) -> (nat, Result<S, S::Error>)
    decreases l.distance(&r),
    when lawful_state::<S>() && bracketed::<I, S>(l, r)
    via search_decreases::<I, S>
{
    match l.midpoint(&r) {
        Err(e) => (1, Err(e)),
        Ok(n) => if I::present(&n) {
            let rest = search::<I, S>(n, r);
            (rest.0 + 1, rest.1)
        } else if n == r {
            (1, Ok(n))
        } else {
            let rest = search::<I, S>(l, n);
            (rest.0 + 1, rest.1)
        },
    }
}

#[via_fn]
proof fn search_decreases<I: Issue<S>, S: State>(l: S, r: S) {
    lemma_bisect_converges::<S>(l, r);
}

/// The boundary that a search returns does not show the issue, and is
/// adjacent to a state that does.
pub proof fn lemma_search_boundary<I: Issue<S>, S: State>(l: S, r: S)
    requires
        lawful_state::<S>(),
        bracketed::<I, S>(l, r),
    ensures
        match search::<I, S>(l, r).1 {
            Ok(n) => !I::present(&n) && exists|p: S| I::present(&p) && #[trigger] adjacent(p, n),
            Err(_) => true,
        },
    decreases l.distance(&r),
{
    lemma_bisect_converges::<S>(l, r);
    if let Ok(n) = l.midpoint(&r) {
        if I::present(&n) {
            lemma_search_boundary::<I, S>(n, r);
        } else if n == r {
            assert(I::present(&l) && adjacent(l, n));
        } else {
            lemma_search_boundary::<I, S>(l, n);
        }
    }
}

/// A search makes at least one probe, and no more probes than the distance
/// between the two ends of its bracket.
pub proof fn lemma_search_steps<I: Issue<S>, S: State>(l: S, r: S)
    requires
        lawful_state::<S>(),
        bracketed::<I, S>(l, r),
    ensures
        1 <= search::<I, S>(l, r).0 <= l.distance(&r),
    decreases l.distance(&r),
{
    lemma_bisect_converges::<S>(l, r);
    if let Ok(n) = l.midpoint(&r) {
        if I::present(&n) {
            lemma_search_steps::<I, S>(n, r);
        } else if n != r {
            lemma_search_steps::<I, S>(l, n);
        }
    }
}

/// A probe that fails ends the search at once: no further probe is made,
/// and the search fails with what the probe failed with.
pub proof fn lemma_failed_probe_ends_search<I: Issue<S>, S: State>(l: S, r: S)
    requires
        lawful_state::<S>(),
        bracketed::<I, S>(l, r),
        l.midpoint(&r) is Err,
    ensures
        search::<I, S>(l, r) == (1nat, Err::<S, S::Error>(l.midpoint(&r)->Err_0)),
{
}

/// Where the issue is monotonic, the boundary is the transition point: if
/// `rank` numbers the states so that adjacent states get adjacent numbers, and
/// the issue shows exactly in the states numbered up to `limit`, then a search
/// returns a state numbered `limit + 1`. (For an issue that shows from some
/// state onwards, number the states downwards.)
pub proof fn lemma_monotonic_boundary<I: Issue<S>, S: State>(
    l: S,
    r: S,
    rank: spec_fn(S) -> int,
    limit: int,
)
    requires
        lawful_state::<S>(),
        bracketed::<I, S>(l, r),
        forall|a: S, b: S| #[trigger]
            adjacent(a, b) ==> rank(a) - rank(b) == 1 || rank(b) - rank(a) == 1,
        forall|s: S| #[trigger] I::present(&s) <==> rank(s) <= limit,
    ensures
        match search::<I, S>(l, r).1 {
            Ok(n) => rank(n) == limit + 1,
            Err(_) => true,
        },
{
    lemma_search_boundary::<I, S>(l, r);
}

/// Drives a search between two states for the boundary of the issue `I`.
pub struct IssueBisector<I, S> where S: State, I: Issue<S> {
    state: S,
    end: S,
    nstep: u32,
    phantom: PhantomData<I>,
}

impl<I, S> IssueBisector<I, S> where S: State, I: Issue<S> {
    /// The state the search starts from.
    pub closed spec fn start(&self) -> S {
        self.state
    }

    /// The state the search runs towards.
    pub closed spec fn end(&self) -> S {
        self.end
    }

    /// The number of probes made so far.
    pub closed spec fn steps(&self) -> nat {
        self.nstep as nat
    }
}

impl<I, S> IssueBisector<I, S> where S: State + Debug, I: Issue<S> {
    /// A bisector for the bracket `(state, end)` that has made no probe.
    pub fn new(state: S, end: S) -> (bisector: Self)
        ensures
            bisector.start() == state,
            bisector.end() == end,
            bisector.steps() == 0,
    {
        IssueBisector { state, end, nstep: 0, phantom: PhantomData }
    }

    /// Classifies the two ends and, where only the start shows the issue,
    /// narrows the bracket until a probe returns its issue-free end.
    ///
    /// Both ends showing the issue, or neither, is an error; the issue at the
    /// end only makes the start the boundary, with a step count of 0. None of
    /// the three makes a probe. Otherwise the result is that of `search`: the
    /// boundary with the step counter's new value, or the failure of the
    /// probe that failed, which is the last one made.
    ///
    /// The state and the issue have to obey their laws, and the step counter
    /// has to have room for the probes of this search, which are no more than
    /// the distance between the two ends (`lemma_search_steps`).
    ///
    /// The boundary does not show the issue and is adjacent to a state that
    /// does. Where the issue is monotonic between the two ends this is the
    /// only such state (`lemma_monotonic_boundary`); where it is not, it is
    /// one of several, and which one is what `search` says.
    pub fn run(&mut self) -> (res: Result<(u32, S), BisectorError<S>>)
        requires
            lawful_state::<S>(),
            lawful_issue::<I, S>(),
            bracketed::<I, S>(old(self).start(), old(self).end()) ==> old(self).steps() + search::<
                I,
                S,
            >(old(self).start(), old(self).end()).0 <= u32::MAX,
        ensures
            final(self).start() == old(self).start(),
            final(self).end() == old(self).end(),
            match (I::present(&old(self).start()), I::present(&old(self).end())) {
                (true, true) => {
                    &&& res matches Err(BisectorError::BothEndHaveIssue)
                    &&& final(self).steps() == old(self).steps()
                },
                (false, false) => {
                    &&& res matches Err(BisectorError::NoEndHasIssue)
                    &&& final(self).steps() == old(self).steps()
                },
                (false, true) => {
                    &&& res == Ok::<(u32, S), BisectorError<S>>((0u32, old(self).start()))
                    &&& final(self).steps() == old(self).steps()
                },
                (true, false) => {
                    let found = search::<I, S>(old(self).start(), old(self).end());
                    &&& final(self).steps() == old(self).steps() + found.0
                    &&& 1 <= found.0 <= old(self).start().distance(&old(self).end())
                    &&& match found.1 {
                        Ok(n) => {
                            &&& res == Ok::<(u32, S), BisectorError<S>>(
                                ((old(self).steps() + found.0) as u32, n),
                            )
                            &&& !I::present(&n)
                            &&& exists|p: S| I::present(&p) && #[trigger] adjacent(p, n)
                        },
                        Err(e) => res == Err::<(u32, S), BisectorError<S>>(
                            BisectorError::StateStepError(e),
                        ),
                    }
                },
            },
    {
        match (I::exists_in(&self.state), I::exists_in(&self.end)) {
            (true, true) => Err(BisectorError::BothEndHaveIssue),
            (false, false) => Err(BisectorError::NoEndHasIssue),
            (false, true) => Ok((0, self.state.clone())),
            (true, false) => {
                let mut l = self.state.clone();
                let mut r = self.end.clone();
                loop
                    invariant
                        lawful_state::<S>(),
                        lawful_issue::<I, S>(),
                        bracketed::<I, S>(l, r),
                        bracketed::<I, S>(old(self).state, old(self).end),
                        self.state == old(self).state,
                        self.end == old(self).end,
                        old(self).nstep <= self.nstep,
                        old(self).nstep + search::<I, S>(old(self).state, old(self).end).0
                            <= u32::MAX,
                        search::<I, S>(old(self).state, old(self).end) == (
                            ((self.nstep - old(self).nstep) + search::<I, S>(l, r).0) as nat,
                            search::<I, S>(l, r).1,
                        ),
                    decreases l.distance(&r),
                {
                    proof {
                        lemma_bisect_converges::<S>(l, r);
                        lemma_search_boundary::<I, S>(self.state, self.end);
                        lemma_search_steps::<I, S>(self.state, self.end);
                    }
                    self.nstep += 1;
                    let n = match l.bisect(&r) {
                        Ok(n) => n,
                        Err(e) => return Err(BisectorError::StateStepError(e)),
                    };
                    if I::exists_in(&n) {
                        l = n;
                    } else {
                        if n == r {
                            return Ok((self.nstep, n));
                        } else {
                            r = n;
                        }
                    }
                }
            },
        }
    }
}

} // verus!
