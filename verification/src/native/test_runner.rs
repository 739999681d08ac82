//! Decisions of the native test runner's main loop.

use vstd::prelude::*;
use vstd::string::StringSliceAdditionalSpecFns;

use crate::native::charutil::{chars_to_string, decimal, decimal_digits};

verus! {

/// The native backend's test runner.
pub struct NativeTestRunner;

/// The fewest test calls made once a bug has been found.
pub const MIN_TEST_CALLS: u64 = 10;

/// How many calls past the first bug the runner keeps looking for others.
pub const POST_BUG_EXTRA_CALLS: u64 = 1000;

/// Whether generation goes on: always before a bug is found; afterwards only
/// when shrinking is on, a bug was found during generation, and the number
/// of calls is below `MIN_TEST_CALLS` or below
/// `min(first_bug + 1000, last_bug * 2)` (both saturating).
pub open spec fn spec_should_generate_more(
    no_bug_yet: bool,
    calls: u64,
    first_bug_at: Option<u64>,
    last_bug_at: Option<u64>,
    shrink_enabled: bool,
) -> bool {
    if no_bug_yet {
        true
    } else if !shrink_enabled {
        false
    } else {
        match first_bug_at {
            None => false,
            Some(first) => {
                let last = match last_bug_at {
                    Some(l) => l,
                    None => first,
                };
                let a: int = if first + POST_BUG_EXTRA_CALLS > u64::MAX { u64::MAX as int } else { first
                    + POST_BUG_EXTRA_CALLS };
                let b: int = if last * 2 > u64::MAX { u64::MAX as int } else { last * 2 };
                let heuristic: int = if a < b { a } else { b };
                calls < MIN_TEST_CALLS || calls < heuristic
            },
        }
    }
}

/// Whether the runner should keep generating test cases.
pub fn should_generate_more(
    no_bug_yet: bool,
    calls: u64,
    first_bug_at: Option<u64>,
    last_bug_at: Option<u64>,
    shrink_enabled: bool,
) -> (r: bool)
    ensures
        r == spec_should_generate_more(no_bug_yet, calls, first_bug_at, last_bug_at, shrink_enabled),
{
    if no_bug_yet {
        return true;
    }
    if !shrink_enabled {
        return false;
    }
    let first = match first_bug_at {
        Some(f) => f,
        None => {
            return false;
        },
    };
    let last = match last_bug_at {
        Some(l) => l,
        None => first,
    };
    let a = first.saturating_add(POST_BUG_EXTRA_CALLS);
    let b = if last > u64::MAX / 2 { u64::MAX } else { last * 2 };
    let heuristic = if a < b { a } else { b };
    calls < MIN_TEST_CALLS || calls < heuristic
}

/// The 64-bit FNV-1a hash of some bytes.
pub open spec fn fnv1a(bytes: Seq<u8>) -> u64
    decreases bytes.len(),
{
    if bytes.len() == 0 {
        0xcbf29ce484222325
    } else {
        (fnv1a(bytes.drop_last()) ^ (bytes.last() as u64)).wrapping_mul(0x100000001b3u64)
    }
}

/// The FNV-1a hash of a string's UTF-8 bytes, used to seed the random
/// generator from a database key.
pub fn hash_string(s: &str) -> (r: u64)
    ensures
        r == fnv1a(s.spec_bytes()),
{
    let bytes = s.as_bytes();
    let mut hash: u64 = 0xcbf29ce484222325;
    let mut i: usize = 0;
    while i < bytes.len()
        invariant
            i <= bytes@.len(),
            bytes@ == s.spec_bytes(),
            hash == fnv1a(bytes@.subrange(0, i as int)),
        decreases bytes@.len() - i,
    {
        proof {
            assert(bytes@.subrange(0, i + 1).drop_last() =~= bytes@.subrange(0, i as int));
        }
        hash = hash ^ (bytes[i] as u64);
        hash = hash.wrapping_mul(0x100000001b3);
        i += 1;
    }
    assert(bytes@.subrange(0, bytes@.len() as int) =~= bytes@);
    hash
}

/// The diagnostic for a flaky test: one whose outcome changed when it was
/// run again on the same generated data.
pub const FLAKY_DIAGNOSTIC: &'static str = "Flaky test detected: Your test produced different outcomes when run with the same generated data \u{2014} it failed when it previously succeeded, or succeeded when it previously failed. This usually means your test depends on external state such as global variables, system time, or external random number generators.";

/// The diagnostic for a flaky test, as a message the caller folds into a
/// failing result.
pub fn flaky_diagnostic() -> (r: String)
    ensures
        r@ == FLAKY_DIAGNOSTIC@,
{
    FLAKY_DIAGNOSTIC.to_owned()
}


/// Health checks run only while fewer than this many valid examples are on
/// record.
pub const HEALTH_CHECK_MAX_VALID: u64 = 10;

/// A span of wall-clock time: whole seconds and the nanoseconds beyond them.
#[derive(Clone, Copy, Debug, PartialEq, Eq)]
pub struct Elapsed {
    pub secs: u64,
    pub nanos: u32,
}

/// Whether the nanoseconds stay below a second.
pub open spec fn elapsed_wf(e: Elapsed) -> bool {
    e.nanos < 1_000_000_000
}

/// Whether `a` is longer than `b`.
pub open spec fn longer(a: Elapsed, b: Elapsed) -> bool {
    a.secs > b.secs || (a.secs == b.secs && a.nanos > b.nanos)
}

/// What `Duration`'s `Debug` formatting prints for a span of `secs`
/// seconds and `nanos` nanoseconds.
pub uninterp spec fn spec_debug_duration(secs: u64, nanos: u32) -> Seq<char>;

/// The `Debug` text of `std::time::Duration::new(secs, nanos)`. Its
/// contract names the text and claims only that it depends on `secs` and
/// `nanos` alone; `Duration::new` does not panic while `nanos` stays below
/// a second.
#[verifier::external_body]
fn debug_duration(secs: u64, nanos: u32) -> (r: String)
    requires
        nanos < 1_000_000_000,
    ensures
        r@ == spec_debug_duration(secs, nanos),
{
    format!("{:?}", std::time::Duration::new(secs, nanos))
}

/// The TooSlow health-check message up to the count of valid inputs.
pub const TOO_SLOW_HEAD: &'static str = "FailedHealthCheck: TooSlow \u{2014} input generation is slow: only ";

/// Between the count of valid inputs and the time taken.
pub const TOO_SLOW_AFTER: &'static str = " valid inputs after ";

/// Before the threshold.
pub const TOO_SLOW_THRESHOLD_TEXT: &'static str = " (threshold ";

/// After the threshold: the advice.
pub const TOO_SLOW_TAIL: &'static str = "). Slow generation makes property testing much less effective. If this is expected, suppress the check with suppress_health_check = [HealthCheck::TooSlow].";

/// The TooSlow health-check message.
pub open spec fn too_slow_message(valid: u64, total: Elapsed, threshold: Elapsed) -> Seq<char> {
    TOO_SLOW_HEAD@ + decimal_digits(valid as nat) + TOO_SLOW_AFTER@ + spec_debug_duration(total.secs, total.nanos)
        + TOO_SLOW_THRESHOLD_TEXT@ + spec_debug_duration(threshold.secs, threshold.nanos) + TOO_SLOW_TAIL@
}

/// The TooSlow health-check message when input generation has taken longer
/// than `threshold` with fewer than [`HEALTH_CHECK_MAX_VALID`] valid
/// examples and the check is not suppressed; otherwise nothing.
pub fn too_slow_check(valid_test_cases: u64, total_test_time: Elapsed, threshold: Elapsed, suppressed: bool) -> (r:
    Option<String>)
    requires
        elapsed_wf(total_test_time),
        elapsed_wf(threshold),
    ensures
        r is Some <==> valid_test_cases < HEALTH_CHECK_MAX_VALID && longer(total_test_time, threshold) && !suppressed,
        r matches Some(m) ==> m@ == too_slow_message(valid_test_cases, total_test_time, threshold),
{
    let slower = total_test_time.secs > threshold.secs || (total_test_time.secs == threshold.secs
        && total_test_time.nanos > threshold.nanos);
    if valid_test_cases < HEALTH_CHECK_MAX_VALID && slower && !suppressed {
        let mut m = TOO_SLOW_HEAD.to_owned();
        let count = chars_to_string(decimal(valid_test_cases as u128).as_slice());
        m.append(count.as_str());
        m.append(TOO_SLOW_AFTER);
        let total = debug_duration(total_test_time.secs, total_test_time.nanos);
        m.append(total.as_str());
        m.append(TOO_SLOW_THRESHOLD_TEXT);
        let limit = debug_duration(threshold.secs, threshold.nanos);
        m.append(limit.as_str());
        m.append(TOO_SLOW_TAIL);
        Some(m)
    } else {
        None
    }
}

} // verus!
