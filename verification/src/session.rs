//! The interaction state machine.
//!
//! One session owns the active week's grid, the date that anchors it,
//! today's date for highlighting, the hover and selection state, and the
//! text being typed. Events arrive one at a time as messages; each is
//! processed completely — state change, any file contents to persist —
//! before the next. Navigation replaces the whole grid and resets hover
//! and selection, since slot indices of the old grid mean nothing in the
//! new one.

use vstd::prelude::*;
use crate::codec::{spec_encode, grid_bounded};
use crate::date::{
    Date, monday_of, week_in_range, day_of, lemma_monday_of, lemma_monday_shift,
    weekday_of, same_iso_week, RD_MAX,
};
use crate::model::{
    WeekGrid, HourUnit, HourUnitView, grid_wf, spec_init_week, spec_cell_look, cell_look, CellLook,
};
use crate::store::{
    CorruptStoreError, load_week, save_week, week_file_path, spec_week_path,
};
use crate::date::week_identifier;

verus! {

/// One interaction event, as the window hands them over.
pub enum Msg {
    /// The pointer entered the cell at (day, hour row).
    HoverEnter(usize, usize),
    /// The pointer left the grid.
    HoverLeave,
    /// The cell at (day, hour row) was clicked.
    Click(usize, usize),
    /// The entry field's text changed.
    TextChanged(String),
    /// The edit button was pressed.
    EditSubmit,
}

/// Which week to move to.
#[derive(Clone, Copy, PartialEq, Eq, Structural, Debug)]
pub enum NavTarget {
    Last,
    Current,
    Next,
}

/// A file write the caller must perform: the full new contents for a path.
pub struct SaveRequest {
    pub path: String,
    pub contents: String,
}

/// Where to read the next week from before finishing a navigation.
pub struct NavPlan {
    pub anchor: Date,
    pub path: String,
}

pub struct Session {
    pub week: WeekGrid,
    pub anchor: Date,
    pub today: Date,
    pub selected: Option<(usize, usize)>,
    pub hovered: Option<(usize, usize)>,
    pub pending: String,
}

impl Session {
    pub open spec fn wf(self) -> bool {
        &&& self.week.wf()
        &&& self.anchor.wf()
        &&& week_in_range(self.anchor.rd as int)
        &&& self.today.wf()
        &&& match self.selected {
            Some(s) => s.0 < 7 && s.1 < 13,
            None => true,
        }
        &&& match self.hovered {
            Some(h) => h.0 < 7 && h.1 < 13,
            None => true,
        }
    }

    /// Nothing hovered and nothing selected, with no pending text.
    pub open spec fn idle(self) -> bool {
        self.selected is None && self.hovered is None && self.pending@.len() == 0
    }

    /// All but the grid, the anchor and the interaction state unchanged.
    pub open spec fn same_dates(self, other: Session) -> bool {
        self.anchor == other.anchor && self.today == other.today
    }

    /// Opens a session on the week of `today`, from whatever the store
    /// holds for that week.
    pub fn new(today: Date, file: Option<&str>) -> (r: Result<Session, CorruptStoreError>)
        requires
            today.wf(),
            week_in_range(today.rd as int),
        ensures
            r matches Ok(s) ==> {
                &&& s.wf()
                &&& s.anchor == today
                &&& s.today == today
                &&& s.idle()
                &&& file is None ==> s.week@ == spec_init_week(today.rd as int)
                &&& file matches Some(text) ==> text@ == spec_encode(s.week@)
            },
            r is Err ==> (file matches Some(text)
                && forall|gv: Seq<Seq<HourUnitView>>|
                    grid_wf(gv) && grid_bounded(gv) ==> text@ != spec_encode(gv)),
    {
        match load_week(today, file) {
            Ok(week) => Ok(Session {
                week,
                anchor: today,
                today,
                selected: None,
                hovered: None,
                pending: String::new(),
            }),
            Err(e) => Err(e),
        }
    }

    /// Steps the machine by one event. Only a submitted edit asks for a
    /// write: the active week's file, holding the grid with the pending
    /// text committed to the selected slot. Out-of-range indices, which a
    /// correct front end never sends, change nothing.
    pub fn update(&mut self, msg: Msg) -> (r: Option<SaveRequest>)
        requires
            old(self).wf(),
        ensures
            final(self).wf(),
            old(self).same_dates(*final(self)),
            match msg {
                Msg::HoverEnter(i, j) => {
                    &&& r is None
                    &&& final(self).week == old(self).week
                    &&& final(self).selected == old(self).selected
                    &&& final(self).pending == old(self).pending
                    &&& if i < 7 && j < 13 {
                        final(self).hovered == Some((i, j))
                    } else {
                        final(self).hovered == old(self).hovered
                    }
                },
                Msg::HoverLeave => {
                    &&& r is None
                    &&& final(self).week == old(self).week
                    &&& final(self).selected == old(self).selected
                    &&& final(self).pending == old(self).pending
                    &&& final(self).hovered is None
                },
                Msg::Click(i, j) => {
                    &&& r is None
                    &&& final(self).week == old(self).week
                    &&& final(self).hovered == old(self).hovered
                    &&& if i < 7 && j < 13 {
                        final(self).selected == Some((i, j)) && final(self).pending@.len() == 0
                    } else {
                        final(self).selected == old(self).selected
                            && final(self).pending == old(self).pending
                    }
                },
                Msg::TextChanged(text) => {
                    &&& r is None
                    &&& final(self).week == old(self).week
                    &&& final(self).hovered == old(self).hovered
                    &&& final(self).selected == old(self).selected
                    &&& if old(self).selected is Some {
                        final(self).pending == text
                    } else {
                        final(self).pending == old(self).pending
                    }
                },
                Msg::EditSubmit => match old(self).selected {
                    Some(s) => {
                        &&& final(self).week@ == WeekGrid::spec_set_content(
                            old(self).week@, s.0 as int, s.1 as int, old(self).pending@,
                        )
                        &&& final(self).selected == old(self).selected
                        &&& final(self).hovered == old(self).hovered
                        &&& final(self).pending@.len() == 0
                        &&& (r matches Some(req) && {
                            &&& req.path@ == spec_week_path(monday_of(old(self).anchor.rd as int))
                            &&& req.contents@ == spec_encode(final(self).week@)
                        })
                    },
                    None => {
                        &&& r is None
                        &&& *final(self) == *old(self)
                    },
                },
            },
    {
        match msg {
            Msg::HoverEnter(i, j) => {
                if i < 7 && j < 13 {
                    self.hovered = Some((i, j));
                }
                None
            },
            Msg::HoverLeave => {
                self.hovered = None;
                None
            },
            Msg::Click(i, j) => {
                if i < 7 && j < 13 {
                    self.selected = Some((i, j));
                    self.pending = String::new();
                }
                None
            },
            Msg::TextChanged(text) => {
                if self.selected.is_some() {
                    self.pending = text;
                }
                None
            },
            Msg::EditSubmit => {
                match self.selected {
                    Some((i, j)) => {
                        let text = clone_string(&self.pending);
                        self.pending = String::new();
                        self.week.set_content(i, j, text);
                        let id = week_identifier(self.anchor);
                        let path = week_file_path(id);
                        let contents = save_week(&self.week);
                        Some(SaveRequest { path, contents })
                    },
                    None => None,
                }
            },
        }
    }

    /// Plans a navigation: which date anchors the target week, and which
    /// file to read for it. `None` exactly when the adjacent week would
    /// leave the supported calendar. `now` is the clock's date, used for
    /// `Current`.
    pub fn navigate_target(&self, t: NavTarget, now: Date) -> (r: Option<NavPlan>)
        requires
            self.wf(),
            now.wf(),
            week_in_range(now.rd as int),
        ensures
            match t {
                NavTarget::Last => {
                    &&& (r is Some <==> monday_of(self.anchor.rd as int) >= 8)
                    &&& (r matches Some(p) ==> {
                        &&& p.anchor.rd == monday_of(self.anchor.rd as int) - 1
                        &&& monday_of(p.anchor.rd as int)
                            == monday_of(self.anchor.rd as int) - 7
                    })
                },
                NavTarget::Current => (r matches Some(p) && p.anchor == now),
                NavTarget::Next => {
                    &&& (r is Some <==> monday_of(self.anchor.rd as int) + 13 <= RD_MAX)
                    &&& (r matches Some(p) ==> {
                        &&& p.anchor.rd == monday_of(self.anchor.rd as int) + 7
                        &&& monday_of(p.anchor.rd as int)
                            == monday_of(self.anchor.rd as int) + 7
                    })
                },
            },
            r matches Some(p) ==> {
                &&& p.anchor.wf()
                &&& week_in_range(p.anchor.rd as int)
                &&& p.path@ == spec_week_path(monday_of(p.anchor.rd as int))
            },
    {
        let anchor = match t {
            NavTarget::Last => self.anchor.previous_week(),
            NavTarget::Current => Some(now),
            NavTarget::Next => self.anchor.next_week(),
        };
        match anchor {
            Some(a) => {
                let id = week_identifier(a);
                let path = week_file_path(id);
                Some(NavPlan { anchor: a, path })
            },
            None => None,
        }
    }

    /// Finishes a navigation with what the store held for the target week:
    /// the grid is replaced wholesale and the interaction state is reset,
    /// so no stale slot index survives the week swap. A corrupt file
    /// changes nothing and surfaces the error.
    pub fn finish_navigate(&mut self, anchor: Date, file: Option<&str>) -> (r: Result<
        (),
        CorruptStoreError,
    >)
        requires
            old(self).wf(),
            anchor.wf(),
            week_in_range(anchor.rd as int),
        ensures
            r is Ok ==> {
                &&& final(self).wf()
                &&& final(self).anchor == anchor
                &&& final(self).today == old(self).today
                &&& final(self).idle()
                &&& file is None ==> final(self).week@ == spec_init_week(anchor.rd as int)
                &&& file matches Some(text) ==> text@ == spec_encode(final(self).week@)
            },
            r is Err ==> *final(self) == *old(self),
            r is Err ==> (file matches Some(text)
                && forall|gv: Seq<Seq<HourUnitView>>|
                    grid_wf(gv) && grid_bounded(gv) ==> text@ != spec_encode(gv)),
    {
        match load_week(anchor, file) {
            Ok(week) => {
                self.week = week;
                self.anchor = anchor;
                self.selected = None;
                self.hovered = None;
                self.pending = String::new();
                Ok(())
            },
            Err(e) => Err(e),
        }
    }

    /// Replaces the date used for the today highlight.
    pub fn set_today(&mut self, d: Date)
        requires
            old(self).wf(),
            d.wf(),
        ensures
            final(self).wf(),
            final(self).today == d,
            final(self).week == old(self).week,
            final(self).anchor == old(self).anchor,
            final(self).selected == old(self).selected,
            final(self).hovered == old(self).hovered,
            final(self).pending == old(self).pending,
    {
        self.today = d;
    }

    /// How the cell at (`i`, `j`) renders, next to today's day of month.
    pub fn cell_look_at(&self, i: usize, j: usize) -> (r: CellLook)
        requires
            self.wf(),
            i < 7,
            j < 13,
        ensures
            r == spec_cell_look(
                self.week@[i as int][j as int],
                day_of(self.today.rd as int) as u32,
            ),
    {
        let (_y, _m, dom) = self.today.civil();
        cell_look(self.week.slot(i, j), dom as u32)
    }

    /// What the hover panel shows: the hovered slot's label and note, or
    /// nothing when the pointer is outside the grid.
    pub fn hover_text(&self) -> (r: Option<(String, String)>)
        requires
            self.wf(),
        ensures
            self.hovered is None <==> r is None,
            r matches Some(p) ==> (self.hovered matches Some(h)
                && p.0@ == self.week@[h.0 as int][h.1 as int].date_hour
                && p.1@ == self.week@[h.0 as int][h.1 as int].content),
    {
        match self.hovered {
            Some((i, j)) => {
                let u = self.week.slot(i, j);
                Some((clone_string(&u.date_hour), clone_string(&u.content)))
            },
            None => None,
        }
    }

    /// What the selection panel shows: the selected slot's label and note,
    /// or nothing when no slot is selected.
    pub fn select_text(&self) -> (r: Option<(String, String)>)
        requires
            self.wf(),
        ensures
            self.selected is None <==> r is None,
            r matches Some(p) ==> (self.selected matches Some(s)
                && p.0@ == self.week@[s.0 as int][s.1 as int].date_hour
                && p.1@ == self.week@[s.0 as int][s.1 as int].content),
    {
        match self.selected {
            Some((i, j)) => {
                let u = self.week.slot(i, j);
                Some((clone_string(&u.date_hour), clone_string(&u.content)))
            },
            None => None,
        }
    }
}

fn clone_string(s: &String) -> (r: String)
    ensures
        r@ == s@,
{
    s.clone()
}

/// Navigating away and back lands in the week one started from: the
/// previous week of the next week, and the next week of the previous
/// week, both lie in the starting date's ISO week, so its identifier and
/// file come back. Next is the day after this week's Sunday; previous is
/// the day before this week's Monday.
pub proof fn lemma_navigation_round_trip(rd: int)
    requires
        1 <= rd,
        8 <= monday_of(rd),
        monday_of(rd) + 13 <= RD_MAX,
    ensures
        same_iso_week(monday_of(monday_of(rd) + 7) - 1, rd),
        same_iso_week(monday_of(monday_of(rd) - 1) + 7, rd),
{
    lemma_monday_of(rd);
    let m = monday_of(rd);
    assert(weekday_of(m) == 0);
    lemma_monday_shift(m, 1);
    assert(monday_of(m + 7 * 1) == m + 7);
    assert(monday_of(m + 7) - 1 == m + 6);
    assert(monday_of(m + 6) == m);
    lemma_monday_shift(m, -1);
    assert(m + 7 * -1 == m - 7);
    assert(monday_of(m - 7) == m - 7);
    lemma_monday_of(m - 7);
    assert(monday_of(m - 7 + 6) == m - 7);
    assert(monday_of(m - 1) + 7 == m);
    assert(monday_of(m) == m);
}

} // verus!
