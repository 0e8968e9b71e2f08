//! The directory lock's decisions, and the informational
//! timestamp the lock file holds.
//!
//! Taking the lock alternates filesystem work with decisions: try to create
//! the lock file exclusively; if it is held, break it when it is stale,
//! fail when the caller's timeout has passed, or wait and try again. The
//! caller performs each attempt and reports it here; [`lock_step`] says
//! what to do next.

use vstd::prelude::*;

use crate::error::{Error, ErrorCode};
use crate::text::{concat2, concat3, dec_chars, dec_spec, owned, string_of};

verus! {

/// The lock file's name, directly in the config directory.
pub fn lock_file_name() -> (r: &'static str)
    ensures
        r@ == ".entryconf.lock"@,
{
    ".entryconf.lock"
}

/// How old a lock file must be, in milliseconds, before a waiter may
/// presume its writer crashed.
pub const LOCK_STALE_AFTER_MS: u64 = 30_000;

/// The first wait between attempts, in milliseconds.
pub const FIRST_WAIT_MS: u64 = 5;

/// What one exclusive-create attempt found.
#[derive(Debug)]
pub enum LockAttempt {
    /// The lock file was created: the lock is held.
    Created,
    /// Creation failed for a reason other than the file existing.
    Failed(String),
    /// The file exists; its age in milliseconds, when known.
    Held(Option<u64>),
}

/// What to do after an attempt.
#[derive(Debug)]
pub enum LockAction {
    /// The lock is held; write the informational content and go on.
    Acquired,
    /// Give up with this error.
    Fail(Error),
    /// The lock is stale: rename it to a unique name, delete that, and try
    /// again at once.
    BreakStale,
    /// Sleep this many milliseconds and try again; the wait after that is
    /// the second field.
    Wait(u64, u64),
}

/// The view of a decision: which action, the code of a failure, and the
/// wait and next wait of a retry.
pub enum LockActionV {
    /// Held.
    Acquired,
    /// Failed with this code.
    Fail(ErrorCode),
    /// Break the stale lock.
    BreakStale,
    /// Sleep, then the next wait.
    Wait(u64, u64),
}

/// The view of a decision.
pub open spec fn lock_action_view(a: LockAction) -> LockActionV {
    match a {
        LockAction::Acquired => LockActionV::Acquired,
        LockAction::Fail(e) => LockActionV::Fail(e.spec_code()),
        LockAction::BreakStale => LockActionV::BreakStale,
        LockAction::Wait(s, n) => LockActionV::Wait(s, n),
    }
}

/// The view of an attempt: created, failed, or held with an age.
pub open spec fn attempt_kind(a: LockAttempt) -> (nat, Option<u64>) {
    match a {
        LockAttempt::Created => (0, None),
        LockAttempt::Failed(_) => (1, None),
        LockAttempt::Held(age) => (2, age),
    }
}

/// The directory lock protocol, one attempt at a time: a created file is the
/// lock; any creation failure other than an existing file is `E_LOCKED`; a
/// held lock older than 30 seconds is broken; otherwise, once `elapsed_ms`
/// reaches `timeout_ms` the attempt is `E_LOCKED`, and before that the
/// waiter sleeps `wait_ms`, doubling the wait while it is under 100 ms.
pub open spec fn lock_step_spec(attempt: (nat, Option<u64>), elapsed_ms: u64, timeout_ms: u64, wait_ms: u64) -> LockActionV {
    if attempt.0 == 0 {
        LockActionV::Acquired
    } else if attempt.0 == 1 {
        LockActionV::Fail(ErrorCode::Locked)
    } else if attempt.1 matches Some(age) && age > LOCK_STALE_AFTER_MS {
        LockActionV::BreakStale
    } else if elapsed_ms >= timeout_ms {
        LockActionV::Fail(ErrorCode::Locked)
    } else {
        LockActionV::Wait(wait_ms, if wait_ms < 100 { (wait_ms * 2) as u64 } else { wait_ms })
    }
}

/// Decides what to do after an attempt to create `path`'s lock file,
/// `elapsed_ms` after the first attempt, with the caller's timeout and the
/// current wait.
pub fn lock_step(path: &str, attempt: LockAttempt, elapsed_ms: u64, timeout_ms: u64, wait_ms: u64) -> (r: LockAction)
    ensures
        lock_action_view(r) == lock_step_spec(attempt_kind(attempt), elapsed_ms, timeout_ms, wait_ms),
{
    match attempt {
        LockAttempt::Created => LockAction::Acquired,
        LockAttempt::Failed(m) => LockAction::Fail(Error::new(
            ErrorCode::Locked,
            concat3("cannot create lock file ", path, concat2(": ", m.as_str()).as_str()),
        )),
        LockAttempt::Held(age) => {
            let stale = match age {
                Some(a) => a > LOCK_STALE_AFTER_MS,
                None => false,
            };
            if stale {
                LockAction::BreakStale
            } else if elapsed_ms >= timeout_ms {
                LockAction::Fail(Error::new(ErrorCode::Locked, concat3("lock file ", path, " is held by another writer")))
            } else {
                let next = if wait_ms < 100 { wait_ms * 2 } else { wait_ms };
                LockAction::Wait(wait_ms, next)
            }
        },
    }
}

/// `n` in decimal, zero-padded on the left to `width` digits.
pub open spec fn padded(n: nat, width: nat) -> Seq<char>
    decreases width,
{
    if dec_spec(n).len() >= width {
        dec_spec(n)
    } else {
        seq!['0'] + padded(n, (width - 1) as nat)
    }
}

/// `n` in decimal, zero-padded to `width` digits.
pub fn pad_number(n: u64, width: usize) -> (r: Vec<char>)
    ensures
        r@ == padded(n as nat, width as nat),
    decreases width,
{
    let d = dec_chars(n);
    if d.len() >= width {
        d
    } else {
        let rest = pad_number(n, width - 1);
        let mut out: Vec<char> = Vec::new();
        out.push('0');
        let mut i: usize = 0;
        while i < rest.len()
            invariant
                i <= rest.len(),
                out@ == seq!['0'] + rest@.take(i as int),
            decreases rest.len() - i,
        {
            out.push(rest[i]);
            assert(rest@.take(i + 1) =~= rest@.take(i as int).push(rest@[i as int]));
            i = i + 1;
        }
        assert(rest@.take(i as int) =~= rest@);
        out
    }
}

/// The civil date (year, month, day) of a day count since 1970-01-01 (the
/// proleptic Gregorian calendar, by era of 400 years).
pub open spec fn civil_from_days(days: int) -> (int, int, int) {
    let z = days + 719_468;
    let era = z / 146_097;
    let doe = z % 146_097;
    let yoe = (doe - doe / 1460 + doe / 36_524 - doe / 146_096) / 365;
    let y = yoe + era * 400;
    let doy = doe - (365 * yoe + yoe / 4 - yoe / 100);
    let mp = (5 * doy + 2) / 153;
    let d = doy - (153 * mp + 2) / 5 + 1;
    let mo = if mp < 10 { mp + 3 } else { mp - 9 };
    (if mo <= 2 { y + 1 } else { y }, mo, d)
}

/// The RFC 3339 UTC timestamp of a count of seconds since the Unix epoch.
pub open spec fn rfc3339_spec(secs: nat) -> Seq<char> {
    let (y, mo, d) = civil_from_days(secs as int / 86_400);
    let h = (secs % 86_400) / 3600;
    let m = (secs % 3600) / 60;
    let s = secs % 60;
    padded(y as nat, 4) + seq!['-'] + padded(mo as nat, 2) + seq!['-'] + padded(d as nat, 2) + seq!['T'] + padded(h, 2)
        + seq![':'] + padded(m, 2) + seq![':'] + padded(s, 2) + seq!['Z']
}

proof fn lemma_civil_ranges(days: int)
    requires
        0 <= days <= 213_503_982_334_601,
    ensures
        0 <= civil_from_days(days).0 <= 600_000_000_000,
        1 <= civil_from_days(days).1 <= 12,
        1 <= civil_from_days(days).2 <= 31,
{
    let z = days + 719_468;
    let era = z / 146_097;
    let doe = z % 146_097;
    assert(0 <= doe < 146_097);
    let yoe = (doe - doe / 1460 + doe / 36_524 - doe / 146_096) / 365;
    assert(0 <= yoe <= 399) by (nonlinear_arith)
        requires
            0 <= doe < 146_097,
            yoe == (doe - doe / 1460 + doe / 36_524 - doe / 146_096) / 365,
    ;
    let doy = doe - (365 * yoe + yoe / 4 - yoe / 100);
    assert(0 <= doy <= 365) by (nonlinear_arith)
        requires
            0 <= doe < 146_097,
            yoe == (doe - doe / 1460 + doe / 36_524 - doe / 146_096) / 365,
            doy == doe - (365 * yoe + yoe / 4 - yoe / 100),
    ;
    let mp = (5 * doy + 2) / 153;
    assert(0 <= mp <= 11);
    let d = doy - (153 * mp + 2) / 5 + 1;
    assert(1 <= d <= 31) by (nonlinear_arith)
        requires
            0 <= doy <= 365,
            mp == (5 * doy + 2) / 153,
            d == doy - (153 * mp + 2) / 5 + 1,
    ;
    assert(0 <= era <= 1_461_400_000);
}

fn civil(days: u64) -> (r: (u64, u64, u64))
    requires
        days <= 213_503_982_334_601,
    ensures
        (r.0 as int, r.1 as int, r.2 as int) == civil_from_days(days as int),
{
    proof {
        lemma_civil_ranges(days as int);
    }
    let z: u64 = days + 719_468;
    let era: u64 = z / 146_097;
    let doe: u64 = z % 146_097;
    assert(doe / 1460 <= doe);
    let yoe: u64 = (doe - doe / 1460 + doe / 36_524 - doe / 146_096) / 365;
    assert(yoe <= 399) by (nonlinear_arith)
        requires
            doe < 146_097,
            yoe == (doe - doe / 1460 + doe / 36_524 - doe / 146_096) / 365,
    ;
    assert(era <= 1_461_400_000) by (nonlinear_arith)
        requires
            z <= 213_503_982_334_601 + 719_468,
            era == z / 146_097,
    ;
    let y: u64 = yoe + era * 400;
    assert(365 * yoe + yoe / 4 - yoe / 100 <= doe) by (nonlinear_arith)
        requires
            doe < 146_097,
            yoe == (doe - doe / 1460 + doe / 36_524 - doe / 146_096) / 365,
    ;
    let doy: u64 = doe - (365 * yoe + yoe / 4 - yoe / 100);
    assert(doy <= 365) by (nonlinear_arith)
        requires
            doe < 146_097,
            yoe == (doe - doe / 1460 + doe / 36_524 - doe / 146_096) / 365,
            doy == doe - (365 * yoe + yoe / 4 - yoe / 100),
    ;
    let mp: u64 = (5 * doy + 2) / 153;
    assert((153 * mp + 2) / 5 <= doy) by (nonlinear_arith)
        requires
            doy <= 365,
            mp == (5 * doy + 2) / 153,
    ;
    let d: u64 = doy - (153 * mp + 2) / 5 + 1;
    let mo: u64 = if mp < 10 { mp + 3 } else { mp - 9 };
    let y: u64 = if mo <= 2 { y + 1 } else { y };
    (y, mo, d)
}

/// The RFC 3339 UTC timestamp of `secs` seconds since the Unix epoch
/// (informational content of the lock file).
pub fn unix_time_rfc3339(secs: u64) -> (r: String)
    ensures
        r@ == rfc3339_spec(secs as nat),
{
    let days = secs / 86_400;
    let h = (secs % 86_400) / 3600;
    let m = (secs % 3600) / 60;
    let s = secs % 60;
    let (y, mo, d) = civil(days);
    let mut out: Vec<char> = pad_number(y, 4);
    out.push('-');
    crate::jsonfmt::push_chars(&mut out, &pad_number(mo, 2));
    out.push('-');
    crate::jsonfmt::push_chars(&mut out, &pad_number(d, 2));
    out.push('T');
    crate::jsonfmt::push_chars(&mut out, &pad_number(h, 2));
    out.push(':');
    crate::jsonfmt::push_chars(&mut out, &pad_number(m, 2));
    out.push(':');
    crate::jsonfmt::push_chars(&mut out, &pad_number(s, 2));
    out.push('Z');
    string_of(out.as_slice())
}

} // verus!
