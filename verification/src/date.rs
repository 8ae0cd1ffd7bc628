//! Calendar dates and week addressing.
//!
//! A date is held as a proleptic-Gregorian day number (`rd`), counting from
//! day 1 = January 1 of year 1, which is a Monday. Civil year/month/day
//! triples convert to and from day numbers through `rd_of`, the textbook
//! day count: full years before, full months before, then the day of the
//! month. The supported range is year 1 through year 9999.

use vstd::prelude::*;
use vstd::arithmetic::div_mod::{
    lemma_fundamental_div_mod, lemma_fundamental_div_mod_converse,
    lemma_div_is_ordered_by_denominator, lemma_div_pos_is_pos,
};

verus! {

/// Day number of December 31 of year 9999, the last supported date.
pub const RD_MAX: u64 = 3652059;

pub open spec fn is_leap(y: int) -> bool {
    y % 4 == 0 && (y % 100 != 0 || y % 400 == 0)
}

pub open spec fn days_in_month(y: int, m: int) -> int {
    if m == 1 { 31 } else if m == 2 { if is_leap(y) { 29 } else { 28 } }
    else if m == 3 { 31 } else if m == 4 { 30 } else if m == 5 { 31 }
    else if m == 6 { 30 } else if m == 7 { 31 } else if m == 8 { 31 }
    else if m == 9 { 30 } else if m == 10 { 31 } else if m == 11 { 30 }
    else { 31 }
}

/// Days of year `y` that fall before month `m`.
pub open spec fn days_before_month(y: int, m: int) -> int {
    let leap: int = if is_leap(y) { 1 } else { 0 };
    if m == 1 { 0 } else if m == 2 { 31 } else if m == 3 { 59 + leap }
    else if m == 4 { 90 + leap } else if m == 5 { 120 + leap }
    else if m == 6 { 151 + leap } else if m == 7 { 181 + leap }
    else if m == 8 { 212 + leap } else if m == 9 { 243 + leap }
    else if m == 10 { 273 + leap } else if m == 11 { 304 + leap }
    else { 334 + leap }
}

/// Leap years among 1..y.
pub open spec fn leaps_before(y: int) -> int {
    (y - 1) / 4 - (y - 1) / 100 + (y - 1) / 400
}

/// Days that fall before January 1 of year `y`.
pub open spec fn days_before_year(y: int) -> int {
    365 * (y - 1) + leaps_before(y)
}

pub open spec fn valid_civil(y: int, m: int, d: int) -> bool {
    1 <= y <= 9999 && 1 <= m <= 12 && 1 <= d <= days_in_month(y, m)
}

/// The day number of a civil date.
pub open spec fn rd_of(y: int, m: int, d: int) -> int {
    days_before_year(y) + days_before_month(y, m) + d
}

pub open spec fn rd_in_range(rd: int) -> bool {
    1 <= rd <= RD_MAX
}

// ---------------------------------------------------------------------------
// Division facts
// ---------------------------------------------------------------------------

/// Stepping the dividend by one raises the quotient exactly at multiples.
proof fn lemma_div_step(x: int, k: int)
    requires
        x >= 1,
        k >= 1,
    ensures
        x / k == (x - 1) / k + if x % k == 0 { 1int } else { 0int },
{
    let q = (x - 1) / k;
    let r = (x - 1) % k;
    lemma_fundamental_div_mod(x - 1, k);
    if r + 1 < k {
        lemma_fundamental_div_mod_converse(x, k, q, r + 1);
    } else {
        assert(x == (q + 1) * k + 0) by (nonlinear_arith)
            requires x - 1 == k * q + r, r + 1 == k;
        lemma_fundamental_div_mod_converse(x, k, q + 1, 0);
    }
}

/// A multiple of 100 is a multiple of 4; a multiple of 400 is one of 100.
proof fn lemma_leap_divisors(y: int)
    ensures
        y % 100 == 0 ==> y % 4 == 0,
        y % 400 == 0 ==> y % 100 == 0,
{
    if y % 100 == 0 {
        lemma_fundamental_div_mod(y, 100);
        assert(y == (25 * (y / 100)) * 4 + 0) by (nonlinear_arith)
            requires y == 100 * (y / 100) + 0;
        lemma_fundamental_div_mod_converse(y, 4, 25 * (y / 100), 0);
    }
    if y % 400 == 0 {
        lemma_fundamental_div_mod(y, 400);
        assert(y == (4 * (y / 400)) * 100 + 0) by (nonlinear_arith)
            requires y == 400 * (y / 400) + 0;
        lemma_fundamental_div_mod_converse(y, 100, 4 * (y / 400), 0);
    }
}

/// One year adds 365 days, or 366 for a leap year.
proof fn lemma_days_before_year_step(y: int)
    requires
        y >= 1,
    ensures
        days_before_year(y + 1) == days_before_year(y) + if is_leap(y) { 366int } else { 365int },
{
    lemma_div_step(y, 4);
    lemma_div_step(y, 100);
    lemma_div_step(y, 400);
    lemma_leap_divisors(y);
}

/// The year day count grows by at least 365 per year.
pub proof fn lemma_days_before_year_monotone(y1: int, y2: int)
    requires
        1 <= y1 <= y2,
    ensures
        days_before_year(y1) <= days_before_year(y2),
        y1 < y2 ==> days_before_year(y1) + 365 <= days_before_year(y2),
    decreases y2 - y1,
{
    if y1 < y2 {
        lemma_days_before_year_monotone(y1, y2 - 1);
        lemma_days_before_year_step(y2 - 1);
    }
}

/// `days_before_year` is nonnegative and bounded on the supported years.
proof fn lemma_days_before_year_bounds(y: int)
    requires
        1 <= y <= 10000,
    ensures
        0 <= days_before_year(y),
        days_before_year(y) <= 3652059,
        days_before_year(10000) == 3652059,
        days_before_year(1) == 0,
{
    lemma_div_pos_is_pos(y - 1, 4);
    lemma_div_pos_is_pos(y - 1, 100);
    lemma_div_pos_is_pos(y - 1, 400);
    lemma_div_is_ordered_by_denominator(y - 1, 4, 100);
    assert(9999int / 4 == 2499 && 9999int / 100 == 99 && 9999int / 400 == 24);
    assert(days_before_year(10000) == 3652059);
    lemma_days_before_year_monotone(y, 10000);
}

/// A valid date's day number lies strictly inside its year's day span.
pub proof fn lemma_rd_of_in_year(y: int, m: int, d: int)
    requires
        valid_civil(y, m, d),
    ensures
        days_before_year(y) < rd_of(y, m, d),
        rd_of(y, m, d) <= days_before_year(y + 1),
{
    lemma_days_before_year_step(y);
}

/// Distinct valid civil dates have distinct day numbers.
pub proof fn lemma_rd_of_injective(y1: int, m1: int, d1: int, y2: int, m2: int, d2: int)
    requires
        valid_civil(y1, m1, d1),
        valid_civil(y2, m2, d2),
        rd_of(y1, m1, d1) == rd_of(y2, m2, d2),
    ensures
        y1 == y2 && m1 == m2 && d1 == d2,
{
    lemma_rd_of_in_year(y1, m1, d1);
    lemma_rd_of_in_year(y2, m2, d2);
    if y1 < y2 {
        lemma_days_before_year_monotone(y1 + 1, y2);
    }
    if y2 < y1 {
        lemma_days_before_year_monotone(y2 + 1, y1);
    }
}

// ---------------------------------------------------------------------------
// Civil conversions
// ---------------------------------------------------------------------------

/// The civil triple of a day number: the unique valid date with that number.
pub open spec fn civil_of(rd: int) -> (int, int, int) {
    choose|y: int, m: int, d: int| valid_civil(y, m, d) && rd_of(y, m, d) == rd
}

pub open spec fn year_of(rd: int) -> int {
    civil_of(rd).0
}

pub open spec fn month_of(rd: int) -> int {
    civil_of(rd).1
}

pub open spec fn day_of(rd: int) -> int {
    civil_of(rd).2
}

/// A witness pins `civil_of` down.
pub proof fn lemma_civil_of(y: int, m: int, d: int)
    requires
        valid_civil(y, m, d),
    ensures
        civil_of(rd_of(y, m, d)) == (y, m, d),
{
    let rd = rd_of(y, m, d);
    assert(exists|a: int, b: int, c: int| valid_civil(a, b, c) && rd_of(a, b, c) == rd) by {
        assert(valid_civil(y, m, d) && rd_of(y, m, d) == rd);
    }
    let t = civil_of(rd);
    assert(valid_civil(t.0, t.1, t.2) && rd_of(t.0, t.1, t.2) == rd);
    lemma_rd_of_injective(t.0, t.1, t.2, y, m, d);
}

fn days_in_month_x(y: u64, m: u64) -> (r: u64)
    requires
        1 <= y <= 9999,
        1 <= m <= 12,
    ensures
        r == days_in_month(y as int, m as int),
{
    let leap: bool = y % 4 == 0 && (y % 100 != 0 || y % 400 == 0);
    if m == 1 { 31 } else if m == 2 { if leap { 29 } else { 28 } }
    else if m == 3 { 31 } else if m == 4 { 30 } else if m == 5 { 31 }
    else if m == 6 { 30 } else if m == 7 { 31 } else if m == 8 { 31 }
    else if m == 9 { 30 } else if m == 10 { 31 } else if m == 11 { 30 }
    else { 31 }
}

fn days_before_month_x(y: u64, m: u64) -> (r: u64)
    requires
        1 <= y <= 9999,
        1 <= m <= 12,
    ensures
        r == days_before_month(y as int, m as int),
{
    let leap: u64 = if y % 4 == 0 && (y % 100 != 0 || y % 400 == 0) { 1 } else { 0 };
    if m == 1 { 0 } else if m == 2 { 31 } else if m == 3 { 59 + leap }
    else if m == 4 { 90 + leap } else if m == 5 { 120 + leap }
    else if m == 6 { 151 + leap } else if m == 7 { 181 + leap }
    else if m == 8 { 212 + leap } else if m == 9 { 243 + leap }
    else if m == 10 { 273 + leap } else if m == 11 { 304 + leap }
    else { 334 + leap }
}

fn days_before_year_x(y: u64) -> (r: u64)
    requires
        1 <= y <= 10000,
    ensures
        r == days_before_year(y as int),
        r <= 3652059,
{
    proof {
        lemma_days_before_year_bounds(y as int);
        lemma_div_pos_is_pos(y as int - 1, 4);
        lemma_div_pos_is_pos(y as int - 1, 100);
        lemma_div_pos_is_pos(y as int - 1, 400);
        lemma_div_is_ordered_by_denominator(y as int - 1, 4, 100);
    }
    365 * (y - 1) + ((y - 1) / 4 - (y - 1) / 100) + (y - 1) / 400
}

/// A calendar date, held as its day number.
#[derive(Clone, Copy, PartialEq, Eq, Structural, Debug)]
pub struct Date {
    pub rd: u64,
}

impl Date {
    pub open spec fn wf(self) -> bool {
        rd_in_range(self.rd as int)
    }

    /// Builds the date with the given civil year, month and day of month;
    /// `None` exactly when the triple is not a supported calendar date.
    pub fn from_civil(y: u64, m: u64, d: u64) -> (r: Option<Date>)
        ensures
            r is Some <==> valid_civil(y as int, m as int, d as int),
            r matches Some(dt) ==> dt.wf() && dt.rd == rd_of(y as int, m as int, d as int),
    {
        if 1 <= y && y <= 9999 && 1 <= m && m <= 12 && 1 <= d && d <= days_in_month_x(y, m) {
            proof {
                lemma_rd_of_in_year(y as int, m as int, d as int);
                lemma_days_before_year_bounds(y as int);
                lemma_days_before_year_monotone(y as int + 1, 10000);
                lemma_days_before_year_bounds(10000);
            }
            let rd = days_before_year_x(y) + days_before_month_x(y, m) + d;
            Some(Date { rd })
        } else {
            None
        }
    }

    /// The civil year, month and day of month of this date.
    pub fn civil(self) -> (r: (u64, u64, u64))
        requires
            self.wf(),
        ensures
            valid_civil(r.0 as int, r.1 as int, r.2 as int),
            rd_of(r.0 as int, r.1 as int, r.2 as int) == self.rd,
            (r.0 as int, r.1 as int, r.2 as int) == civil_of(self.rd as int),
    {
        let rd = self.rd;
        let mut y: u64 = 1;
        let mut yy: u64 = 2;
        while yy <= 10000
            invariant
                1 <= y < yy <= 10001,
                rd_in_range(rd as int),
                days_before_year(y as int) < rd,
                y as int + 1 < yy ==> days_before_year(y as int + 1) >= rd,
            decreases 10001 - yy,
        {
            if days_before_year_x(yy) < rd {
                y = yy;
            }
            yy = yy + 1;
        }
        proof {
            lemma_days_before_year_bounds(10000);
            if y == 10000 {
                assert(false);
            }
            assert(1 <= y <= 9999);
            assert(days_before_year(y as int + 1) >= rd);
            lemma_days_before_year_step(y as int);
        }
        let ord = rd - days_before_year_x(y);
        let mut m: u64 = 1;
        let mut mm: u64 = 2;
        while mm <= 12
            invariant
                1 <= y <= 9999,
                1 <= m < mm <= 13,
                1 <= ord,
                ord <= if is_leap(y as int) { 366int } else { 365int },
                days_before_month(y as int, m as int) < ord,
                m as int + 1 < mm ==> days_before_month(y as int, m as int + 1) >= ord,
            decreases 13 - mm,
        {
            if days_before_month_x(y, mm) < ord {
                m = mm;
            }
            mm = mm + 1;
        }
        let d = ord - days_before_month_x(y, m);
        proof {
            assert(valid_civil(y as int, m as int, d as int));
            assert(rd_of(y as int, m as int, d as int) == rd);
            lemma_civil_of(y as int, m as int, d as int);
        }
        (y, m, d)
    }
}

// ---------------------------------------------------------------------------
// Existence of a civil reading for every supported day number
// ---------------------------------------------------------------------------

proof fn lemma_has_civil(rd: int)
    requires
        rd_in_range(rd),
    ensures
        exists|y: int, m: int, d: int| valid_civil(y, m, d) && rd_of(y, m, d) == rd,
    decreases rd,
{
    if rd == 1 {
        assert(leaps_before(1) == 0);
        assert(valid_civil(1, 1, 1) && rd_of(1, 1, 1) == 1);
    } else {
        lemma_has_civil(rd - 1);
        let (y, m, d): (int, int, int) =
            choose|y: int, m: int, d: int| valid_civil(y, m, d) && rd_of(y, m, d) == rd - 1;
        if d < days_in_month(y, m) {
            assert(valid_civil(y, m, d + 1) && rd_of(y, m, d + 1) == rd);
        } else if m < 12 {
            assert(days_before_month(y, m + 1) == days_before_month(y, m) + days_in_month(y, m));
            assert(valid_civil(y, m + 1, 1) && rd_of(y, m + 1, 1) == rd);
        } else {
            lemma_days_before_year_step(y);
            assert(rd_of(y + 1, 1, 1) == days_before_year(y + 1) + 1);
            assert(rd_of(y + 1, 1, 1) == rd);
            assert(y + 1 <= 9999) by {
                if y + 1 > 9999 {
                    lemma_days_before_year_bounds(10000);
                    assert(rd == days_before_year(10000) + 1);
                    assert(rd > RD_MAX);
                }
            }
            assert(valid_civil(y + 1, 1, 1));
        }
    }
}

/// Every supported day number reads back as a valid civil date.
pub proof fn lemma_civil_of_valid(rd: int)
    requires
        rd_in_range(rd),
    ensures
        valid_civil(year_of(rd), month_of(rd), day_of(rd)),
        rd_of(year_of(rd), month_of(rd), day_of(rd)) == rd,
{
    lemma_has_civil(rd);
    let t = civil_of(rd);
    assert(valid_civil(t.0, t.1, t.2) && rd_of(t.0, t.1, t.2) == rd);
}

// ---------------------------------------------------------------------------
// Weeks
// ---------------------------------------------------------------------------

/// Day of the week: 0 = Monday .. 6 = Sunday.
pub open spec fn weekday_of(rd: int) -> int {
    (rd - 1) % 7
}

/// The Monday on or before the given day.
pub open spec fn monday_of(rd: int) -> int {
    rd - (rd - 1) % 7
}

/// The whole week around `rd` (Monday through Sunday) is representable.
pub open spec fn week_in_range(rd: int) -> bool {
    rd_in_range(rd) && monday_of(rd) + 6 <= RD_MAX
}

/// Two dates lie in the same ISO week exactly when they share a Monday.
pub open spec fn same_iso_week(rd1: int, rd2: int) -> bool {
    monday_of(rd1) == monday_of(rd2)
}

/// Basic facts about the Monday of a week.
pub proof fn lemma_monday_of(rd: int)
    requires
        rd >= 1,
    ensures
        rd - 6 <= monday_of(rd) <= rd,
        monday_of(rd) >= 1,
        weekday_of(monday_of(rd)) == 0,
        forall|k: int| 0 <= k < 7 ==> #[trigger] monday_of(monday_of(rd) + k) == monday_of(rd),
{
    lemma_fundamental_div_mod(rd - 1, 7);
    let q = (rd - 1) / 7;
    let r = (rd - 1) % 7;
    let m = monday_of(rd);
    assert(m - 1 == q * 7 + 0) by (nonlinear_arith)
        requires rd - 1 == 7 * q + r, m == rd - r;
    lemma_fundamental_div_mod_converse(m - 1, 7, q, 0);
    assert forall|k: int| 0 <= k < 7 implies #[trigger] monday_of(m + k) == m by {
        assert(m + k - 1 == q * 7 + k) by (nonlinear_arith)
            requires m - 1 == q * 7;
        lemma_fundamental_div_mod_converse(m + k - 1, 7, q, k);
    }
}

/// Stepping a whole number of weeks keeps the weekday and moves the Monday.
pub proof fn lemma_monday_shift(rd: int, w: int)
    requires
        rd >= 1,
        rd + 7 * w >= 1,
    ensures
        monday_of(rd + 7 * w) == monday_of(rd) + 7 * w,
    decreases (if w >= 0 { w } else { -w }),
{
    lemma_fundamental_div_mod(rd - 1, 7);
    let q = (rd - 1) / 7;
    let r = (rd - 1) % 7;
    assert(rd + 7 * w - 1 == (q + w) * 7 + r) by (nonlinear_arith)
        requires rd - 1 == 7 * q + r;
    lemma_fundamental_div_mod_converse(rd + 7 * w - 1, 7, q + w, r);
}

impl Date {
    /// Day of the week, 0 = Monday .. 6 = Sunday.
    pub fn weekday(self) -> (r: u64)
        requires
            self.wf(),
        ensures
            r == weekday_of(self.rd as int),
    {
        (self.rd - 1) % 7
    }

    /// The Monday of this date's ISO week.
    pub fn monday(self) -> (r: Date)
        requires
            self.wf(),
        ensures
            r.rd == monday_of(self.rd as int),
            r.wf(),
    {
        proof { lemma_monday_of(self.rd as int); }
        Date { rd: self.rd - (self.rd - 1) % 7 }
    }

    /// A date in the ISO week before this one: the day before this week's
    /// Monday. `None` exactly when that week starts before the supported range.
    pub fn previous_week(self) -> (r: Option<Date>)
        requires
            self.wf(),
        ensures
            r is Some <==> monday_of(self.rd as int) >= 8,
            r matches Some(p) ==> {
                &&& p.rd == monday_of(self.rd as int) - 1
                &&& p.wf()
                &&& week_in_range(p.rd as int)
                &&& monday_of(p.rd as int) == monday_of(self.rd as int) - 7
            },
    {
        proof { lemma_monday_of(self.rd as int); }
        let m = self.monday();
        if m.rd >= 8 {
            proof {
                lemma_monday_of(m.rd as int - 7);
                lemma_monday_shift(m.rd as int, -1);
                assert(m.rd as int + 7 * -1 == m.rd - 7);
                assert(monday_of(m.rd as int - 7) == monday_of(m.rd as int) - 7);
                assert(monday_of(m.rd as int) == m.rd) by {
                    lemma_monday_of(self.rd as int);
                }
                assert(monday_of(m.rd as int - 7 + 6) == m.rd - 7);
            }
            Some(Date { rd: m.rd - 1 })
        } else {
            None
        }
    }

    /// A date in the ISO week after this one: the day after this week's
    /// Sunday. `None` exactly when that week runs past the supported range.
    pub fn next_week(self) -> (r: Option<Date>)
        requires
            self.wf(),
        ensures
            r is Some <==> monday_of(self.rd as int) + 13 <= RD_MAX,
            r matches Some(n) ==> {
                &&& n.rd == monday_of(self.rd as int) + 7
                &&& n.wf()
                &&& week_in_range(n.rd as int)
                &&& monday_of(n.rd as int) == monday_of(self.rd as int) + 7
            },
    {
        proof { lemma_monday_of(self.rd as int); }
        let m = self.monday();
        if m.rd + 13 <= RD_MAX {
            proof {
                lemma_monday_shift(m.rd as int, 1);
                assert(monday_of(m.rd as int) == m.rd) by {
                    lemma_monday_of(self.rd as int);
                }
            }
            Some(Date { rd: m.rd + 7 })
        } else {
            None
        }
    }
}

/// Address of an ISO week: the day number of its Monday.
#[derive(Clone, Copy, PartialEq, Eq, Structural, Debug)]
pub struct WeekId {
    pub monday: u64,
}

impl WeekId {
    pub open spec fn wf(self) -> bool {
        &&& 1 <= self.monday
        &&& self.monday + 6 <= RD_MAX
        &&& weekday_of(self.monday as int) == 0
    }
}

/// The identifier of the ISO week containing a date: every date of one week
/// maps to the same identifier.
pub fn week_identifier(d: Date) -> (r: WeekId)
    requires
        d.wf(),
        week_in_range(d.rd as int),
    ensures
        r.monday == monday_of(d.rd as int),
        r.wf(),
{
    proof { lemma_monday_of(d.rd as int); }
    let m = d.monday();
    WeekId { monday: m.rd }
}

/// The Monday and Sunday bounding the ISO week of a date.
pub fn week_bounds(d: Date) -> (r: (Date, Date))
    requires
        d.wf(),
        week_in_range(d.rd as int),
    ensures
        r.0.rd == monday_of(d.rd as int),
        r.1.rd == monday_of(d.rd as int) + 6,
        r.0.wf() && r.1.wf(),
{
    proof { lemma_monday_of(d.rd as int); }
    let m = d.monday();
    (m, Date { rd: m.rd + 6 })
}

/// The Thursday that decides which year an ISO week belongs to.
pub open spec fn iso_thursday(rd: int) -> int {
    monday_of(rd) + 3
}

/// The ISO year of a date: the civil year of its week's Thursday.
pub open spec fn iso_year(rd: int) -> int {
    year_of(iso_thursday(rd))
}

/// The ISO week number of a date within its ISO year.
pub open spec fn iso_week(rd: int) -> int {
    (iso_thursday(rd) - days_before_year(iso_year(rd)) - 1) / 7 + 1
}

/// The ISO year and week number of a date.
pub fn iso_year_week(d: Date) -> (r: (u64, u64))
    requires
        d.wf(),
        week_in_range(d.rd as int),
    ensures
        r.0 == iso_year(d.rd as int),
        r.1 == iso_week(d.rd as int),
        1 <= r.1 <= 53,
{
    proof { lemma_monday_of(d.rd as int); }
    let m = d.monday();
    let th = Date { rd: m.rd + 3 };
    let (ty, _tm, _td) = th.civil();
    proof {
        lemma_rd_of_in_year(ty as int, _tm as int, _td as int);
    }
    let ord = th.rd - days_before_year_x(ty);
    proof {
        lemma_days_before_year_step(ty as int);
    }
    (ty, (ord - 1) / 7 + 1)
}

/// Dates of one ISO week share their ISO year, week number, and identifier.
pub proof fn lemma_same_week_same_address(rd1: int, rd2: int)
    requires
        rd1 >= 1,
        rd2 >= 1,
        same_iso_week(rd1, rd2),
    ensures
        iso_year(rd1) == iso_year(rd2),
        iso_week(rd1) == iso_week(rd2),
{
}

/// The ISO year and week number determine the week: dates that agree on both
/// lie in the same ISO week.
pub proof fn lemma_iso_pair_determines_week(rd1: int, rd2: int)
    requires
        week_in_range(rd1),
        week_in_range(rd2),
        iso_year(rd1) == iso_year(rd2),
        iso_week(rd1) == iso_week(rd2),
    ensures
        same_iso_week(rd1, rd2),
{
    let t1 = iso_thursday(rd1);
    let t2 = iso_thursday(rd2);
    lemma_monday_of(rd1);
    lemma_monday_of(rd2);
    lemma_civil_of_valid(t1);
    lemma_civil_of_valid(t2);
    let y = iso_year(rd1);
    lemma_rd_of_in_year(year_of(t1), month_of(t1), day_of(t1));
    lemma_rd_of_in_year(year_of(t2), month_of(t2), day_of(t2));
    let a1 = t1 - days_before_year(y) - 1;
    let a2 = t2 - days_before_year(y) - 1;
    assert(a1 >= 0 && a2 >= 0);
    assert(a1 / 7 == a2 / 7);
    // both Thursdays sit three days past a Monday, so they agree modulo 7
    let m1 = monday_of(rd1);
    let m2 = monday_of(rd2);
    lemma_fundamental_div_mod(m1 - 1, 7);
    lemma_fundamental_div_mod(m2 - 1, 7);
    let q1 = (m1 - 1) / 7;
    let q2 = (m2 - 1) / 7;
    assert(a1 == q1 * 7 + (3 - days_before_year(y)) + 7 * 0) by (nonlinear_arith)
        requires m1 - 1 == 7 * q1 + 0, a1 == m1 + 3 - days_before_year(y) - 1;
    let c = 3 - days_before_year(y);
    assert(a1 == 7 * q1 + c && a2 == 7 * q2 + c) by (nonlinear_arith)
        requires
            m1 - 1 == 7 * q1 + 0,
            m2 - 1 == 7 * q2 + 0,
            a1 == m1 + 3 - days_before_year(y) - 1,
            a2 == m2 + 3 - days_before_year(y) - 1,
            c == 3 - days_before_year(y);
    // write both as 7q + r with the same remainder
    let r1 = a1 % 7;
    lemma_fundamental_div_mod(a1, 7);
    lemma_fundamental_div_mod(a2, 7);
    assert(a1 - a2 == 7 * (q1 - q2)) by (nonlinear_arith)
        requires a1 == 7 * q1 + c, a2 == 7 * q2 + c;
    assert(a2 == (a1 / 7 - (q1 - q2)) * 7 + a1 % 7) by (nonlinear_arith)
        requires a1 == 7 * (a1 / 7) + a1 % 7, a1 - a2 == 7 * (q1 - q2);
    lemma_fundamental_div_mod_converse(a2, 7, a1 / 7 - (q1 - q2), a1 % 7);
    assert(a1 % 7 == a2 % 7);
    assert(a1 == a2);
    assert(t1 == t2);
}

} // verus!
