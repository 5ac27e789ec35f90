//! Game time. Time is counted in nanoseconds; the game's rules count it in
//! time units, a time unit lasting one `frequency`-th of a second.
use vstd::prelude::*;

use crate::constants::{NANOS_PER_MILLI, NANOS_PER_SECOND};

verus! {

/// Nanoseconds that `time_units` last at `frequency` time units per second,
/// rounded to the nearest whole nanosecond, a tie going to the even one.
pub open spec fn duration_nanos(time_units: nat, frequency: nat) -> nat {
    if time_units == 0 {
        0
    } else {
        let scaled = time_units * NANOS_PER_SECOND as nat;
        let whole = scaled / frequency;
        let rest = scaled % frequency;
        if 2 * rest > frequency || (2 * rest == frequency && whole % 2 == 1) {
            whole + 1
        } else {
            whole
        }
    }
}

/// How long `time_units` last at `frequency` time units per second, in
/// nanoseconds, rounded to the nearest one (see `duration_nanos`).
pub fn duration_for(time_units: u64, frequency: usize) -> (nanos: u64)
    requires
        time_units > 0 ==> frequency > 0,
        duration_nanos(time_units as nat, frequency as nat) <= u64::MAX,
    ensures
        nanos == duration_nanos(time_units as nat, frequency as nat),
{
    if time_units == 0 {
        0
    } else {
        assert(time_units as u128 * 1000000000u128 <= 0xffff_ffff_ffff_ffff * 1000000000u128) by (nonlinear_arith)
            requires
                time_units <= 0xffff_ffff_ffff_ffffu64,
        ;
        let scaled = time_units as u128 * NANOS_PER_SECOND as u128;
        let f = frequency as u128;
        let whole = scaled / f;
        let rest = scaled % f;
        assert(scaled == time_units as nat * NANOS_PER_SECOND as nat);
        let rounded = if 2 * rest > f || (2 * rest == f && whole % 2 == 1) {
            whole + 1
        } else {
            whole
        };
        rounded as u64
    }
}

/// A timeout for `poll`, in whole milliseconds rounded up: minus one (wait
/// for ever) for none, and at most the largest `i32`.
pub open spec fn poll_milliseconds(timeout: Option<u64>) -> int {
    match timeout {
        None => -1,
        Some(nanos) => {
            let millis = (nanos as int + NANOS_PER_MILLI as int - 1) / NANOS_PER_MILLI as int;
            if millis > i32::MAX {
                i32::MAX as int
            } else {
                millis
            }
        },
    }
}

/// The `poll` timeout for a wait of `timeout` nanoseconds: rounded up to a
/// whole millisecond so that a timer that is not due yet is not missed,
/// minus one to wait for ever.
pub fn timeout_to_poll_milliseconds(timeout: Option<u64>) -> (millis: i32)
    ensures
        millis == poll_milliseconds(timeout),
{
    match timeout {
        None => -1,
        Some(nanos) => {
            if nanos == 0 {
                return 0;
            }
            let millis = nanos / NANOS_PER_MILLI + if nanos % NANOS_PER_MILLI == 0 {
                0
            } else {
                1
            };
            assert(millis == (nanos as int + NANOS_PER_MILLI as int - 1) / NANOS_PER_MILLI as int)
                by (nonlinear_arith)
                requires
                    millis == nanos / 1000000 + if nanos % 1000000 == 0 {
                        0int
                    } else {
                        1int
                    },
            ;
            if millis > i32::MAX as u64 {
                i32::MAX
            } else {
                millis as i32
            }
        },
    }
}


/// At most the highest frequency a graphical client may set, a positive
/// number of time units lasts some nanoseconds.
pub proof fn lemma_duration_positive(time_units: nat, frequency: nat)
    requires
        1 <= time_units,
        1 <= frequency <= crate::constants::MAX_FREQUENCY,
    ensures
        duration_nanos(time_units, frequency) > 0,
{
    assert(time_units * 1000000000 / frequency >= 1) by (nonlinear_arith)
        requires
            1 <= time_units,
            1 <= frequency <= 10000,
    {
        assert(time_units * 1000000000 >= frequency);
    }
}

/// The wait handed to `poll` covers the whole timeout, with less than a
/// millisecond to spare, unless it had to be cut to the largest `i32`.
pub proof fn lemma_poll_wait_covers(nanos: u64)
    ensures
        poll_milliseconds(Some(nanos)) < i32::MAX ==> nanos <= poll_milliseconds(Some(nanos)) * 1000000
            < nanos + 1000000,
{
    let n = nanos as int;
    let m = (n + 999999) / 1000000;
    vstd::arithmetic::div_mod::lemma_fundamental_div_mod(n + 999999, 1000000);
    assert(0 <= (n + 999999) % 1000000 < 1000000) by {
        vstd::arithmetic::div_mod::lemma_mod_bound(n + 999999, 1000000);
    }
    assert(n <= m * 1000000 < n + 1000000);
}

} // verus!
