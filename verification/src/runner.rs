//! Small configuration types — a task runner with a mode, a retry policy —
//! together with a verified decimal formatter for their descriptions.

use vstd::prelude::*;
use vstd::string::StringExecFns;

verus! {

/// Execution mode of a task runner.
#[derive(Clone, Copy, Debug, PartialEq, Eq, Structural)]
pub enum Mode {
    Fast,
    Safe,
}

impl Mode {
    /// The user-readable word for this mode.
    pub fn text(&self) -> (r: &'static str)
        ensures
            *self is Fast ==> r@ == "fast"@,
            *self is Safe ==> r@ == "safe"@,
    {
        match self {
            Mode::Fast => "fast",
            Mode::Safe => "safe",
        }
    }
}

/// A named task with an execution mode.
pub struct TaskRunner {
    pub name: String,
    pub mode: Mode,
}

impl TaskRunner {
    pub fn new(name: &str, mode: Mode) -> (r: Self)
        ensures
            r.name@ == name@,
            r.mode == mode,
    {
        TaskRunner { name: String::from_str(name), mode }
    }
}

/// Letter grade of a score: 90–100 is A, 75–89 B, 60–74 C, anything else D.
pub fn classify(score: i32) -> (r: &'static str)
    ensures
        90 <= score <= 100 ==> r@ == "A"@,
        75 <= score <= 89 ==> r@ == "B"@,
        60 <= score <= 74 ==> r@ == "C"@,
        score < 60 || score > 100 ==> r@ == "D"@,
{
    if 90 <= score && score <= 100 {
        "A"
    } else if 75 <= score && score <= 89 {
        "B"
    } else if 60 <= score && score <= 74 {
        "C"
    } else {
        "D"
    }
}

/// Fast mode answers with a fixed timeout; safe mode has none.
pub fn maybe_timeout(mode: &Mode) -> (r: Option<u64>)
    ensures
        *mode is Fast ==> r == Some(200u64),
        *mode is Safe ==> r is None,
{
    match mode {
        Mode::Fast => Some(200),
        Mode::Safe => None,
    }
}

/// The decimal digits of `v`, most significant first.
pub open spec fn dec_str(v: nat) -> Seq<char>
    decreases v,
{
    if v < 10 {
        seq![((v + 48) as u32) as char]
    } else {
        dec_str(v / 10).push((((v % 10) + 48) as u32) as char)
    }
}

/// Append one decimal digit to a string.
fn append_digit(s: &mut String, d: u64)
    requires
        d < 10,
    ensures
        final(s)@ == old(s)@ + seq![((d + 48) as u32) as char],
{
    let piece: &str = match d {
        0 => "0",
        1 => "1",
        2 => "2",
        3 => "3",
        4 => "4",
        5 => "5",
        6 => "6",
        7 => "7",
        8 => "8",
        _ => "9",
    };
    proof {
        reveal_strlit("0");
        reveal_strlit("1");
        reveal_strlit("2");
        reveal_strlit("3");
        reveal_strlit("4");
        reveal_strlit("5");
        reveal_strlit("6");
        reveal_strlit("7");
        reveal_strlit("8");
        reveal_strlit("9");
        assert(piece@ =~= seq![((d + 48) as u32) as char]);
    }
    s.append(piece);
}

/// Append the decimal rendering of `v` to a string.
fn append_u64(s: &mut String, v: u64)
    ensures
        final(s)@ == old(s)@ + dec_str(v as nat),
    decreases v,
{
    if v < 10 {
        append_digit(s, v);
    } else {
        append_u64(s, v / 10);
        append_digit(s, v % 10);
        proof {
            assert(old(s)@ + dec_str((v / 10) as nat) + seq![(((v % 10) + 48) as u32) as char]
                =~= old(s)@ + dec_str(v as nat));
        }
    }
}

/// The decimal rendering of `v`.
pub fn u64_to_string(v: u64) -> (r: String)
    ensures
        r@ == dec_str(v as nat),
{
    let mut s = String::new();
    append_u64(&mut s, v);
    proof {
        assert(Seq::<char>::empty() + dec_str(v as nat) =~= dec_str(v as nat));
    }
    s
}

/// Run mode of a retry policy description.
#[derive(Clone, Copy, Debug, PartialEq, Eq, Structural)]
pub enum RunMode {
    Fast,
    SafeMode,
}

/// How often and how patiently to retry.
pub struct RetryPolicy {
    pub max_retry: u32,
    pub backoff_ms: u64,
}

/// Extra waiting time granted on top of the per-retry backoff.
pub const DEFAULT_TIMEOUT_MS: u64 = 250;

/// Total waiting time of a policy, in milliseconds: every retry's backoff
/// plus the default timeout.
pub fn calc_total_timeout(policy: &RetryPolicy) -> (r: u64)
    requires
        policy.max_retry * policy.backoff_ms + DEFAULT_TIMEOUT_MS <= u64::MAX,
    ensures
        r == policy.max_retry * policy.backoff_ms + DEFAULT_TIMEOUT_MS,
{
    (policy.max_retry as u64) * policy.backoff_ms + DEFAULT_TIMEOUT_MS
}

impl RetryPolicy {
    pub fn new(max_retry: u32, backoff_ms: u64) -> (r: Self)
        ensures
            r.max_retry == max_retry,
            r.backoff_ms == backoff_ms,
    {
        RetryPolicy { max_retry, backoff_ms }
    }

    /// A one-line rendering of the policy under a run mode.
    pub fn describe(&self, mode: RunMode) -> (r: String)
        ensures
            r@ == "mode="@ + (if mode is Fast {
                "fast"@
            } else {
                "safe"@
            }) + ", max_retry="@ + dec_str(self.max_retry as nat) + ", backoff_ms="@ + dec_str(
                self.backoff_ms as nat,
            ),
    {
        let mode_str: &str = match mode {
            RunMode::Fast => "fast",
            RunMode::SafeMode => "safe",
        };
        let mut out = String::from_str("mode=");
        out.append(mode_str);
        out.append(", max_retry=");
        let retries = u64_to_string(self.max_retry as u64);
        out.append(retries.as_str());
        out.append(", backoff_ms=");
        let backoff = u64_to_string(self.backoff_ms);
        out.append(backoff.as_str());
        proof {
            assert(out@ =~= "mode="@ + (if mode is Fast {
                "fast"@
            } else {
                "safe"@
            }) + ", max_retry="@ + dec_str(self.max_retry as nat) + ", backoff_ms="@ + dec_str(
                self.backoff_ms as nat,
            ));
        }
        out
    }
}

} // verus!
