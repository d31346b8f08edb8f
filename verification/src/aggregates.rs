//! Minute bars and the regular-trading-hours filter: a bar belongs to the
//! session when its instant, seen on the New York local clock, lies in
//! [09:30:00, 16:00:00).
use vstd::prelude::*;

verus! {

/// Latest instant (seconds after the Unix epoch) the session filter accepts;
/// midnight at the start of 2100-01-01 UTC.
pub const MAX_BAR_INSTANT: i64 = 4_102_444_800;

/// Seconds from local midnight in New York at the instant `t` seconds after
/// the Unix epoch, as chrono-tz computes it from its embedded time-zone table.
pub uninterp spec fn new_york_second_of_day(t: int) -> int;

/// Relies on chrono's `DateTime::from_timestamp` (defined for every instant
/// admitted here), `with_timezone`, and `Timelike::num_seconds_from_midnight`
/// (below 86400 for a zero-nanosecond instant), and on chrono-tz's
/// America/New_York table: the local second of day is a function of the
/// instant alone.
#[verifier::external_body]
fn new_york_second_of_day_exec(t: i64) -> (r: u32)
    requires
        0 <= t <= MAX_BAR_INSTANT,
    ensures
        r == new_york_second_of_day(t as int),
        r < 86_400,
{
    let utc = chrono::DateTime::<chrono::Utc>::from_timestamp(t, 0)
        .expect("instant admitted by the precondition");
    let local = utc.with_timezone(&chrono_tz::America::New_York);
    chrono::Timelike::num_seconds_from_midnight(&local.time())
}

/// A minute bar: the observation instant (seconds after the Unix epoch) and
/// the closing price at the 1e-6 scale.
#[derive(Clone, Copy, Debug, PartialEq, Eq, Structural)]
pub struct Bar {
    pub t: i64,
    pub close: u64,
}

/// A bar's instant lies in the regular New York trading session, [09:30:00,
/// 16:00:00) local time (seconds 34200 to 57600 of the local day).
pub open spec fn bar_in_session(b: Bar) -> bool {
    34_200 <= new_york_second_of_day(b.t as int) < 57_600
}

/// An aggregate that knows whether its observation instant falls inside the
/// regular trading session of its exchange.
pub trait JumpDiffusionAggregate {
    /// The instant's second of day on the exchange's local clock.
    spec fn session_second(&self) -> int;

    /// The instant lies in the range where the local clock is defined.
    spec fn session_input_ok(&self) -> bool;

    /// Whether the observation lies inside the regular session.
    fn is_open(&self) -> (r: bool)
        requires
            self.session_input_ok(),
        ensures
            r == (34_200 <= self.session_second() < 57_600),
    ;
}

impl JumpDiffusionAggregate for Bar {
    open spec fn session_second(&self) -> int {
        new_york_second_of_day(self.t as int)
    }

    open spec fn session_input_ok(&self) -> bool {
        0 <= self.t <= MAX_BAR_INSTANT
    }

    fn is_open(&self) -> (r: bool) {
        let s = new_york_second_of_day_exec(self.t);
        34_200 <= s && s < 57_600
    }
}

} // verus!
