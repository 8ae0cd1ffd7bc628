//! The in-memory week grid.
//!
//! A week holds 7 day columns, Monday through Sunday, of 13 hour slots
//! each, for the hours 8 through 20. Every slot carries a display string
//! naming its calendar date and hour, a free-text note (empty means unset),
//! and the day of month of its column, used to highlight today.

use vstd::prelude::*;
use crate::date::{
    Date, monday_of, week_in_range, day_of, month_of, year_of, lemma_monday_of,
};
use crate::num::{spec_dec, push_dec};
use crate::text::chars_to_string;

verus! {

pub const DAYS_PER_WEEK: usize = 7;

pub const SLOTS_PER_DAY: usize = 13;

/// First labeled hour of a day column; the last is FIRST_HOUR + 12 = 20.
pub const FIRST_HOUR: u64 = 8;

/// One schedulable slot.
pub struct HourUnit {
    pub date_hour: String,
    pub content: String,
    pub day: u32,
}

/// The mathematical reading of a slot.
#[verifier::ext_equal]
pub struct HourUnitView {
    pub date_hour: Seq<char>,
    pub content: Seq<char>,
    pub day: u32,
}

impl View for HourUnit {
    type V = HourUnitView;

    open spec fn view(&self) -> HourUnitView {
        HourUnitView { date_hour: self.date_hour@, content: self.content@, day: self.day }
    }
}

/// A week of 7 day columns with 13 hour slots each.
pub struct WeekGrid {
    pub days: Vec<Vec<HourUnit>>,
}

impl View for WeekGrid {
    type V = Seq<Seq<HourUnitView>>;

    open spec fn view(&self) -> Seq<Seq<HourUnitView>> {
        Seq::new(self.days@.len(), |i: int| Seq::new(self.days@[i]@.len(), |j: int| self.days@[i]@[j]@))
    }
}

/// Exactly 7 columns of exactly 13 slots.
pub open spec fn grid_wf(g: Seq<Seq<HourUnitView>>) -> bool {
    &&& g.len() == 7
    &&& forall|i: int| 0 <= i < 7 ==> (#[trigger] g[i]).len() == 13
}

/// The display string of one slot: "{month}/{day}/{year} {hour}:00".
pub open spec fn spec_date_hour(rd: int, hour: int) -> Seq<char> {
    spec_dec(month_of(rd) as nat) + seq!['/'] + spec_dec(day_of(rd) as nat) + seq!['/']
        + spec_dec(year_of(rd) as nat) + seq![' '] + spec_dec(hour as nat) + seq![':', '0', '0']
}

/// The freshly initialized slot for day number `rd` and row `j`.
pub open spec fn spec_init_unit(rd: int, j: int) -> HourUnitView {
    HourUnitView {
        date_hour: spec_date_hour(rd, FIRST_HOUR + j),
        content: Seq::empty(),
        day: day_of(rd) as u32,
    }
}

/// A fresh blank grid for the week of `anchor`, column by column.
pub open spec fn spec_init_week(anchor_rd: int) -> Seq<Seq<HourUnitView>> {
    Seq::new(7, |i: int| Seq::new(13, |j: int| spec_init_unit(monday_of(anchor_rd) + i, j)))
}

/// Builds the display string of a date and hour.
pub fn date_hour_string(d: Date, hour: u64) -> (r: String)
    requires
        d.wf(),
    ensures
        r@ == spec_date_hour(d.rd as int, hour as int),
{
    let (y, m, dd) = d.civil();
    let mut out: Vec<char> = Vec::new();
    push_dec(&mut out, m);
    out.push('/');
    push_dec(&mut out, dd);
    out.push('/');
    push_dec(&mut out, y);
    out.push(' ');
    push_dec(&mut out, hour);
    out.push(':');
    out.push('0');
    out.push('0');
    proof {
        assert(m as int == month_of(d.rd as int));
        assert(dd as int == day_of(d.rd as int));
        assert(y as int == year_of(d.rd as int));
        assert(out@ =~= spec_date_hour(d.rd as int, hour as int));
    }
    chars_to_string(&out)
}

impl WeekGrid {
    pub open spec fn wf(self) -> bool {
        grid_wf(self@)
    }

    /// A blank 7-by-13 grid for the ISO week of `anchor`: labels carry the
    /// column's date and the hours 8 through 20 ascending, every note is
    /// empty, and each column records its date's day of month.
    pub fn init_week(anchor: Date) -> (g: WeekGrid)
        requires
            anchor.wf(),
            week_in_range(anchor.rd as int),
        ensures
            g.wf(),
            g@ == spec_init_week(anchor.rd as int),
    {
        proof { lemma_monday_of(anchor.rd as int); }
        let monday = anchor.monday();
        let mut days: Vec<Vec<HourUnit>> = Vec::new();
        let mut i: usize = 0;
        while i < 7
            invariant
                i <= 7,
                days@.len() == i,
                monday.rd == monday_of(anchor.rd as int),
                monday.rd + 6 <= crate::date::RD_MAX,
                monday.rd >= 1,
                forall|ii: int| 0 <= ii < i ==> (#[trigger] days@[ii]@.len()) == 13,
                forall|ii: int, jj: int| 0 <= ii < i && 0 <= jj < 13 ==>
                    (#[trigger] days@[ii]@[jj]@) == spec_init_unit(monday.rd + ii, jj),
            decreases 7 - i,
        {
            let col_date = Date { rd: monday.rd + (i as u64) };
            let (_cy, _cm, cd) = col_date.civil();
            let mut col: Vec<HourUnit> = Vec::new();
            let mut j: usize = 0;
            while j < 13
                invariant
                    j <= 13,
                    col@.len() == j,
                    col_date.wf(),
                    col_date.rd == monday.rd + i,
                    cd as int == day_of(col_date.rd as int),
                    1 <= cd <= 31,
                    forall|jj: int| 0 <= jj < j ==>
                        (#[trigger] col@[jj]@) == spec_init_unit(col_date.rd as int, jj),
                decreases 13 - j,
            {
                let unit = HourUnit {
                    date_hour: date_hour_string(col_date, FIRST_HOUR + (j as u64)),
                    content: String::new(),
                    day: cd as u32,
                };
                proof {
                    assert(unit@ == spec_init_unit(col_date.rd as int, j as int));
                }
                col.push(unit);
                j = j + 1;
            }
            days.push(col);
            i = i + 1;
        }
        let g = WeekGrid { days };
        proof {
            assert(g@ =~~= spec_init_week(anchor.rd as int));
        }
        g
    }

    /// The grid after replacing one slot's note, all else unchanged.
    pub open spec fn spec_set_content(
        g: Seq<Seq<HourUnitView>>,
        i: int,
        j: int,
        text: Seq<char>,
    ) -> Seq<Seq<HourUnitView>> {
        g.update(i, g[i].update(j, HourUnitView { content: text, ..g[i][j] }))
    }

    /// Replaces the note at slot (`i`, `j`), preserving its label and day.
    pub fn set_content(&mut self, i: usize, j: usize, text: String)
        requires
            old(self).wf(),
            i < 7,
            j < 13,
        ensures
            final(self).wf(),
            final(self)@ == Self::spec_set_content(old(self)@, i as int, j as int, text@),
    {
        let ghost old_view = self@;
        proof {
            assert(self@.len() == self.days@.len());
            assert(self@[i as int].len() == self.days@[i as int]@.len());
        }
        let col = &mut self.days[i];
        let dh = col[j].date_hour.clone();
        let day = col[j].day;
        col[j] = HourUnit { date_hour: dh, content: text, day };
        proof {
            assert(self@ =~~= Self::spec_set_content(old_view, i as int, j as int, text@));
        }
    }

    /// Reads the slot at (`i`, `j`).
    pub fn slot(&self, i: usize, j: usize) -> (r: &HourUnit)
        requires
            self.wf(),
            i < 7,
            j < 13,
        ensures
            r@ == self@[i as int][j as int],
    {
        proof {
            assert(self@.len() == self.days@.len());
            assert(self@[i as int].len() == self.days@[i as int]@.len());
        }
        &self.days[i][j]
    }
}

/// Replacing a slot's note twice with the same text is the same as doing it
/// once, so committing an edit again changes nothing further.
pub proof fn lemma_set_content_idempotent(g: Seq<Seq<HourUnitView>>, i: int, j: int, text: Seq<char>)
    requires
        grid_wf(g),
        0 <= i < 7,
        0 <= j < 13,
    ensures
        WeekGrid::spec_set_content(WeekGrid::spec_set_content(g, i, j, text), i, j, text)
            == WeekGrid::spec_set_content(g, i, j, text),
{
    let once = WeekGrid::spec_set_content(g, i, j, text);
    let twice = WeekGrid::spec_set_content(once, i, j, text);
    assert(twice =~~= once);
}

/// How a cell renders.
#[derive(Clone, Copy, PartialEq, Eq, Structural, Debug)]
pub enum CellLook {
    /// No note, not today's column.
    Empty,
    /// No note, in today's column.
    TodayEmpty,
    /// A note is present, whatever the day.
    Filled,
}

/// The look of a slot: a note wins over the today highlight.
pub open spec fn spec_cell_look(u: HourUnitView, today_dom: u32) -> CellLook {
    if u.content.len() > 0 {
        CellLook::Filled
    } else if u.day == today_dom {
        CellLook::TodayEmpty
    } else {
        CellLook::Empty
    }
}

/// Computes how a slot renders next to today's day of month.
pub fn cell_look(u: &HourUnit, today_dom: u32) -> (r: CellLook)
    ensures
        r == spec_cell_look(u@, today_dom),
{
    if !u.content.as_str().is_empty() {
        CellLook::Filled
    } else if u.day == today_dom {
        CellLook::TodayEmpty
    } else {
        CellLook::Empty
    }
}

/// The five-character label a cell shows for each look.
pub fn look_label(l: CellLook) -> (r: &'static str)
    ensures
        l == CellLook::Empty ==> r@ == "-----"@,
        l == CellLook::TodayEmpty ==> r@ == "+++++"@,
        l == CellLook::Filled ==> r@ == ":::::"@,
{
    match l {
        CellLook::Empty => "-----",
        CellLook::TodayEmpty => "+++++",
        CellLook::Filled => ":::::",
    }
}

} // verus!
