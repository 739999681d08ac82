//! When to fire the hill-climbing optimiser during generation.

use vstd::prelude::*;

verus! {

/// The schedule for firing the optimiser: a first pass after about 10% of
/// the budget (capped at 50 valid test cases), then another pass every
/// half of the budget thereafter.
pub struct TargetingSchedule {
    step: u64,
    next_at: u64,
}

/// The number of valid test cases after which the optimiser first fires:
/// about 10% of the budget, capped at 50 (and at least 1).
pub open spec fn first_firing(max_test_cases: u64) -> u64 {
    let cap: u64 = if max_test_cases / 10 < 50 { (max_test_cases / 10) as u64 } else { 50 };
    if cap > 1 { cap } else { 1 }
}

/// The interval between later firings for a budget of `max_test_cases`:
/// about half the budget (at least 10, and past the first firing).
pub open spec fn schedule_step(max_test_cases: u64) -> u64 {
    let cap: u64 = if max_test_cases / 10 < 50 { (max_test_cases / 10) as u64 } else { 50 };
    let half: u64 = (max_test_cases / 2) as u64;
    let a: u64 = if half > (cap + 1) as u64 { half } else { (cap + 1) as u64 };
    if a > 10 { a } else { 10 }
}

/// `a + b`, saturating at `u64::MAX`.
pub open spec fn saturating_sum(a: u64, b: u64) -> u64 {
    if a + b > u64::MAX { u64::MAX } else { (a + b) as u64 }
}

impl TargetingSchedule {
    pub closed spec fn spec_step(&self) -> u64 {
        self.step
    }

    /// The valid-test-case count at which the optimiser fires next.
    pub closed spec fn spec_next_at(&self) -> u64 {
        self.next_at
    }

    pub fn new(max_test_cases: u64) -> (s: Self)
        ensures
            s.spec_step() == schedule_step(max_test_cases),
            s.spec_next_at() == first_firing(max_test_cases),
            s.spec_step() >= 10,
    {
        let small_example_cap = if max_test_cases / 10 < 50 { max_test_cases / 10 } else { 50 };
        let half = max_test_cases / 2;
        let floor = small_example_cap.saturating_add(1);
        let a = if half > floor { half } else { floor };
        let step = if a > 10 { a } else { 10 };
        let first = if small_example_cap > 1 { small_example_cap } else { 1 };
        TargetingSchedule { step, next_at: first }
    }

    /// Whether the optimiser should fire at `valid_test_cases`; when it
    /// does, the next firing moves one step past this count, so repeated
    /// calls on the same count fire at most once.
    pub fn should_fire(&mut self, valid_test_cases: u64) -> (r: bool)
        ensures
            r == (valid_test_cases >= old(self).spec_next_at()),
            final(self).spec_step() == old(self).spec_step(),
            r ==> final(self).spec_next_at() == saturating_sum(valid_test_cases, old(self).spec_step()),
            !r ==> final(self).spec_next_at() == old(self).spec_next_at(),
            r && old(self).spec_step() > 0 && valid_test_cases < u64::MAX ==> final(self).spec_next_at()
                > valid_test_cases,
    {
        if valid_test_cases < self.next_at {
            return false;
        }
        self.next_at = valid_test_cases.saturating_add(self.step);
        true
    }
}

} // verus!
