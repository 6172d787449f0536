use issue_bisector::{BisectorError, Issue, IssueBisector, State};
use std::cell::Cell;
use std::rc::Rc;

/// A point on the number line that counts, in a counter shared with its
/// clones and midpoints, how often `bisect` is called.
#[derive(Debug, Clone)]
struct Counted {
    i: u32,
    calls: Rc<Cell<u32>>,
}

impl Counted {
    fn pair(start: u32, end: u32) -> (Counted, Counted, Rc<Cell<u32>>) {
        let calls = Rc::new(Cell::new(0));
        (
            Counted { i: start, calls: calls.clone() },
            Counted { i: end, calls: calls.clone() },
            calls,
        )
    }
}

impl PartialEq for Counted {
    fn eq(&self, other: &Self) -> bool {
        self.i == other.i
    }
}

impl State for Counted {
    type Error = String;

    fn bisect(&self, end: &Self) -> Result<Self, Self::Error> {
        self.calls.set(self.calls.get() + 1);
        let sum = match self.i.checked_add(end.i) {
            Some(sum) => sum,
            None => return Err(format!("{} + {} overflows", self.i, end.i)),
        };
        let i = if self.i.abs_diff(end.i) == 1 { end.i } else { sum / 2 };
        Ok(Counted { i, calls: self.calls.clone() })
    }
}

struct UpToThreeBillion;

impl Issue<Counted> for UpToThreeBillion {
    fn exists_in(state: &Counted) -> bool {
        state.i <= 3_000_000_000
    }
}

struct UpToFiftyThousand;

impl Issue<Counted> for UpToFiftyThousand {
    fn exists_in(state: &Counted) -> bool {
        state.i <= 50_000
    }
}

struct UpToZero;

impl Issue<Counted> for UpToZero {
    fn exists_in(state: &Counted) -> bool {
        state.i == 0
    }
}

#[test]
fn trivial_case_makes_no_probe() {
    let (start, end, calls) = Counted::pair(100_000, 0);
    let mut bisector = IssueBisector::<UpToFiftyThousand, Counted>::new(start, end);

    let (nstep, boundary) = bisector.run().unwrap();

    assert_eq!(nstep, 0);
    assert_eq!(boundary.i, 100_000);
    assert_eq!(calls.get(), 0);
}

#[test]
fn both_ends_with_issue_makes_no_probe() {
    let (start, end, calls) = Counted::pair(0, 50_000);
    let mut bisector = IssueBisector::<UpToFiftyThousand, Counted>::new(start, end);

    assert!(matches!(bisector.run(), Err(BisectorError::BothEndHaveIssue)));
    assert_eq!(calls.get(), 0);
}

#[test]
fn no_end_with_issue_makes_no_probe() {
    let (start, end, calls) = Counted::pair(50_001, 100_000);
    let mut bisector = IssueBisector::<UpToFiftyThousand, Counted>::new(start, end);

    assert!(matches!(bisector.run(), Err(BisectorError::NoEndHasIssue)));
    assert_eq!(calls.get(), 0);
}

#[test]
fn step_count_is_the_number_of_probes() {
    let (start, end, calls) = Counted::pair(0, 100_000);
    let mut bisector = IssueBisector::<UpToFiftyThousand, Counted>::new(start, end);

    let (nstep, boundary) = bisector.run().unwrap();

    assert_eq!(boundary.i, 50_001);
    assert_eq!(nstep, 17);
    assert_eq!(calls.get(), 17);
}

#[test]
fn evenly_straddled_threshold_takes_the_rounded_up_logarithm() {
    // 2^16 < 100000 <= 2^17
    let (start, end, _) = Counted::pair(0, 100_000);
    let mut bisector = IssueBisector::<UpToFiftyThousand, Counted>::new(start, end);
    let (nstep, _) = bisector.run().unwrap();
    assert_eq!(nstep, 17);

    // 2^1 < 3 <= 2^2
    let (start, end, _) = Counted::pair(0, 3);
    let mut bisector = IssueBisector::<UpToZero, Counted>::new(start, end);
    let (nstep, boundary) = bisector.run().unwrap();
    assert_eq!(nstep, 2);
    assert_eq!(boundary.i, 1);
}

#[test]
fn boundary_is_issue_free_and_next_to_the_issue() {
    let (start, end, calls) = Counted::pair(7, 100_000);
    let mut bisector = IssueBisector::<UpToFiftyThousand, Counted>::new(start, end);
    let (_, boundary) = bisector.run().unwrap();

    assert!(!UpToFiftyThousand::exists_in(&boundary));
    let before = Counted { i: boundary.i - 1, calls };
    assert!(UpToFiftyThousand::exists_in(&before));
    assert_eq!(before.bisect(&boundary).unwrap(), boundary);
}

#[test]
fn overflow_on_the_first_probe_stops_there() {
    let (start, end, calls) = Counted::pair(2_147_483_648, u32::MAX);
    let mut bisector = IssueBisector::<UpToThreeBillion, Counted>::new(start, end);

    match bisector.run() {
        Err(BisectorError::StateStepError(e)) => {
            assert_eq!(e, "2147483648 + 4294967295 overflows")
        }
        other => panic!("expected the probe's own error, got {:?}", other),
    }
    assert_eq!(calls.get(), 1);
}

#[test]
fn overflow_on_a_later_probe_stops_there() {
    let (start, end, calls) = Counted::pair(0, u32::MAX);
    let mut bisector = IssueBisector::<UpToThreeBillion, Counted>::new(start, end);

    match bisector.run() {
        Err(BisectorError::StateStepError(e)) => {
            assert_eq!(e, "2147483647 + 4294967295 overflows")
        }
        other => panic!("expected the probe's own error, got {:?}", other),
    }
    assert_eq!(calls.get(), 2);
}

#[test]
fn second_run_goes_on_counting() {
    let (start, end, calls) = Counted::pair(0, 100_000);
    let mut bisector = IssueBisector::<UpToFiftyThousand, Counted>::new(start, end);

    let (first, boundary) = bisector.run().unwrap();
    let (second, again) = bisector.run().unwrap();

    assert_eq!(first, 17);
    assert_eq!(second, 34);
    assert_eq!(boundary, again);
    assert_eq!(calls.get(), 34);
}
