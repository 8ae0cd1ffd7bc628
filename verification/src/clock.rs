//! The wall clock.
//!
//! The one thing the library cannot compute is the date of "today"; it is
//! read from the system clock and then validated in verified code, so the
//! rest of the library works for every value the clock could hand back.

use vstd::prelude::*;
use chrono::Datelike;
use crate::date::{
    Date, week_in_range, valid_civil, rd_of, monday_of,
    lemma_monday_of, leaps_before, days_before_year,
};

verus! {

/// Relies on `chrono::Local::now` and `chrono::Datelike`: the local
/// calendar date, whose month is 1..=12 and day of month 1..=31.
#[verifier::external_body]
fn today_civil() -> (r: (i64, u64, u64))
    ensures
        1 <= r.1 <= 12,
        1 <= r.2 <= 31,
{
    let now = chrono::Local::now().date_naive();
    (now.year() as i64, now.month() as u64, now.day() as u64)
}

/// The fixed date used when the clock hands back something unusable.
pub open spec fn spec_fallback_rd() -> int {
    rd_of(1970, 1, 1)
}

fn fallback_date() -> (r: Date)
    ensures
        r.rd == spec_fallback_rd(),
        r.wf(),
        week_in_range(r.rd as int),
{
    proof {
        assert(leaps_before(1970) == 477);
        assert(days_before_year(1970) == 719162);
        assert(spec_fallback_rd() == 719163);
        lemma_monday_of(719163);
    }
    Date { rd: 719163 }
}

/// Turns a clock reading into a usable date: the read date itself when it
/// is a supported calendar date whose year leaves the whole week in range,
/// and a fixed fallback date otherwise.
pub fn date_from_clock(y: i64, m: u64, d: u64) -> (r: Date)
    ensures
        r.wf(),
        week_in_range(r.rd as int),
        (1 <= y <= 9998 && valid_civil(y as int, m as int, d as int))
            ==> r.rd == rd_of(y as int, m as int, d as int),
        !(1 <= y <= 9998 && valid_civil(y as int, m as int, d as int))
            ==> r.rd == spec_fallback_rd(),
{
    if 1 <= y && y <= 9998 {
        match Date::from_civil(y as u64, m, d) {
            Some(dt) => {
                proof {
                    crate::date::lemma_rd_of_in_year(y as int, m as int, d as int);
                    crate::date::lemma_days_before_year_monotone(y as int + 1, 9999);
                    lemma_monday_of(dt.rd as int);
                    assert(days_before_year(9999) == 3651694);
                }
                dt
            },
            None => fallback_date(),
        }
    } else {
        fallback_date()
    }
}

/// Today's local date, made safe for the rest of the library.
pub fn current_date() -> (r: Date)
    ensures
        r.wf(),
        week_in_range(r.rd as int),
{
    let (y, m, d) = today_civil();
    date_from_clock(y, m, d)
}

} // verus!
