//! The one place where the library reads the wall clock.

use crate::wire::Timestamp;
use vstd::prelude::*;

verus! {

/// Relies on `chrono::Utc::now` for the current UTC time, and on the
/// `chrono::Datelike` / `chrono::Timelike` accessors to take the calendar
/// fields apart: `month` is documented to return 1..=12, `day` 1..=31,
/// `hour` 0..=23, `minute` and `second` 0..=59.  Nothing is promised of the
/// year: the clock may report any moment.
#[verifier::external_body]
fn now_parts() -> (r: (i32, u32, u32, u32, u32, u32))
    ensures
        1 <= r.1 <= 12,
        1 <= r.2 <= 31,
        r.3 <= 23,
        r.4 <= 59,
        r.5 <= 59,
{
    let t = chrono::Utc::now().naive_utc();
    (
        chrono::Datelike::year(&t),
        chrono::Datelike::month(&t),
        chrono::Datelike::day(&t),
        chrono::Timelike::hour(&t),
        chrono::Timelike::minute(&t),
        chrono::Timelike::second(&t),
    )
}

/// Reads the wall clock and returns it as a well-formed [`Timestamp`].
/// The year is clamped into the four-digit range the wire format carries;
/// every other field is within range whatever the clock reports.
pub fn now_timestamp() -> (r: Timestamp)
    ensures
        r.wf(),
{
    let (y, month, day, hour, minute, second) = now_parts();
    let year: u32 = if y < 0 {
        0
    } else if y > 9999 {
        9999
    } else {
        y as u32
    };
    Timestamp { year, month, day, hour, minute, second }
}

} // verus!
