//! Settings and signals of the targeted runner.

use vstd::prelude::*;

verus! {

/// Raised when the `max_examples` budget runs out in the middle of a climb.
pub struct RunIsComplete;

/// Settings for the targeted runner: only `max_examples` is tunable.
pub struct TargetedRunnerSettings {
    pub max_examples: usize,
}

impl TargetedRunnerSettings {
    /// The default settings: 100 examples.
    pub fn new() -> (s: Self)
        ensures
            s.max_examples == 100,
    {
        TargetedRunnerSettings { max_examples: 100 }
    }

    /// The same settings with `max_examples` set to `n`.
    pub fn max_examples(self, n: usize) -> (s: Self)
        ensures
            s.max_examples == n,
    {
        let mut s = self;
        s.max_examples = n;
        s
    }
}

impl Default for TargetedRunnerSettings {
    fn default() -> (s: Self)
        ensures
            s.max_examples == 100,
    {
        Self::new()
    }
}

} // verus!
