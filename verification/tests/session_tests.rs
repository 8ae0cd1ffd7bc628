use freetime::date::{Date, week_identifier};
use freetime::model::CellLook;
use freetime::session::{Session, Msg, NavTarget};
use freetime::store::load_week;

fn d(y: u64, m: u64, day: u64) -> Date {
    Date::from_civil(y, m, day).expect("valid date")
}

fn fresh(y: u64, m: u64, day: u64) -> Session {
    Session::new(d(y, m, day), None).expect("fresh session")
}

#[test]
fn empty_store_renders_blank_week_with_today_highlight() {
    // the whole grid is unset; only today's column highlights, empty
    let mut s = fresh(2023, 1, 4);
    for i in 0..7 {
        for j in 0..13 {
            assert_eq!(s.week.days[i][j].content, "");
            let expected = if i == 2 { CellLook::TodayEmpty } else { CellLook::Empty };
            assert_eq!(s.cell_look_at(i, j), expected);
        }
    }
    assert!(s.hover_text().is_none());
    assert!(s.select_text().is_none());
    assert!(s.update(Msg::HoverLeave).is_none());
}

#[test]
fn hover_shows_slot_and_leave_clears_it() {
    let mut s = fresh(2023, 1, 4);
    assert!(s.update(Msg::HoverEnter(0, 0)).is_none());
    let (label, content) = s.hover_text().expect("hovered");
    assert_eq!(label, "1/2/2023 8:00");
    assert_eq!(content, "");
    assert!(s.update(Msg::HoverLeave).is_none());
    assert!(s.hover_text().is_none());
}

#[test]
fn hover_is_independent_of_selection() {
    let mut s = fresh(2023, 1, 4);
    s.update(Msg::Click(1, 2));
    s.update(Msg::HoverEnter(4, 5));
    assert!(s.select_text().is_some());
    assert!(s.hover_text().is_some());
    s.update(Msg::HoverLeave);
    // losing the hover keeps the selection
    assert!(s.select_text().is_some());
    assert_eq!(s.selected, Some((1, 2)));
}

#[test]
fn out_of_range_events_change_nothing() {
    let mut s = fresh(2023, 1, 4);
    assert!(s.update(Msg::HoverEnter(7, 0)).is_none());
    assert!(s.hover_text().is_none());
    assert!(s.update(Msg::Click(0, 13)).is_none());
    assert!(s.select_text().is_none());
    // typing without a selection is dropped
    assert!(s.update(Msg::TextChanged(String::from("lost"))).is_none());
    assert_eq!(s.pending, "");
    // submitting without a selection writes nothing
    assert!(s.update(Msg::EditSubmit).is_none());
}

#[test]
fn select_type_commit_fills_slot() {
    // select slot (0,0), type "Meeting", commit
    let mut s = fresh(2023, 1, 4);
    s.update(Msg::Click(0, 0));
    s.update(Msg::TextChanged(String::from("Meeting")));
    let req = s.update(Msg::EditSubmit).expect("a write is requested");
    assert_eq!(s.week.days[0][0].content, "Meeting");
    assert_eq!(s.cell_look_at(0, 0), CellLook::Filled);
    // the slot stays selected for further edits, with the text buffer cleared
    assert_eq!(s.selected, Some((0, 0)));
    assert_eq!(s.pending, "");
    // the requested file is the active week's, and its contents decode to
    // a grid holding the committed text
    assert_eq!(req.path, ".freetime/1_2_2023-1_8_2023.week");
    let reloaded = load_week(s.anchor, Some(&req.contents)).expect("decodes");
    assert_eq!(reloaded.days[0][0].content, "Meeting");
    assert_eq!(reloaded.days[0][1].content, "");
}

#[test]
fn committing_same_text_twice_persists_same_bytes() {
    let mut s = fresh(2023, 1, 4);
    s.update(Msg::Click(2, 3));
    s.update(Msg::TextChanged(String::from("gym")));
    let first = s.update(Msg::EditSubmit).expect("write");
    s.update(Msg::TextChanged(String::from("gym")));
    let second = s.update(Msg::EditSubmit).expect("write");
    assert_eq!(first.path, second.path);
    assert_eq!(first.contents, second.contents);
}

#[test]
fn clicking_a_slot_resets_pending_text() {
    let mut s = fresh(2023, 1, 4);
    s.update(Msg::Click(1, 1));
    s.update(Msg::TextChanged(String::from("draft")));
    s.update(Msg::Click(2, 2));
    assert_eq!(s.pending, "");
    s.update(Msg::EditSubmit);
    assert_eq!(s.week.days[2][2].content, "");
}

#[test]
fn navigation_replaces_week_and_resets_interaction() {
    let now = d(2023, 1, 4);
    let mut s = fresh(2023, 1, 4);
    s.update(Msg::Click(0, 0));
    s.update(Msg::HoverEnter(1, 1));
    let plan = s.navigate_target(NavTarget::Next, now).expect("in range");
    assert_eq!(plan.path, ".freetime/1_9_2023-1_15_2023.week");
    s.finish_navigate(plan.anchor, None).expect("fresh week");
    assert_eq!(s.selected, None);
    assert_eq!(s.hovered, None);
    assert_eq!(s.pending, "");
    assert_eq!(s.week.days[0][0].date_hour, "1/9/2023 8:00");
}

#[test]
fn navigate_next_then_last_returns_to_same_week() {
    // navigate Next from week W, then Last: the active week is W again,
    // and the interaction state is idle
    let now = d(2023, 1, 4);
    let mut s = fresh(2023, 1, 4);
    let start_id = week_identifier(s.anchor);
    s.update(Msg::Click(3, 3));
    let forward = s.navigate_target(NavTarget::Next, now).expect("in range");
    s.finish_navigate(forward.anchor, None).expect("loads");
    assert_ne!(week_identifier(s.anchor), start_id);
    let back = s.navigate_target(NavTarget::Last, now).expect("in range");
    s.finish_navigate(back.anchor, None).expect("loads");
    assert_eq!(week_identifier(s.anchor), start_id);
    assert_eq!(s.selected, None);
    assert_eq!(s.hovered, None);
    assert_eq!(s.pending, "");
}

#[test]
fn navigate_current_uses_the_given_date() {
    let mut s = fresh(2023, 1, 4);
    let plan = s
        .navigate_target(NavTarget::Current, d(2024, 6, 12))
        .expect("always possible");
    s.finish_navigate(plan.anchor, None).expect("loads");
    assert_eq!(s.anchor, d(2024, 6, 12));
    assert_eq!(s.week.days[0][0].date_hour, "6/10/2024 8:00");
}

#[test]
fn navigation_round_trip_across_year_boundary() {
    let now = d(2020, 12, 30);
    let mut s = fresh(2020, 12, 30);
    let start_id = week_identifier(s.anchor);
    let forward = s.navigate_target(NavTarget::Next, now).expect("in range");
    s.finish_navigate(forward.anchor, None).expect("loads");
    let back = s.navigate_target(NavTarget::Last, now).expect("in range");
    s.finish_navigate(back.anchor, None).expect("loads");
    assert_eq!(week_identifier(s.anchor), start_id);
}

#[test]
fn commits_survive_navigation_through_the_store() {
    // commit, leave the week, come back through the saved text
    let mut s = fresh(2023, 1, 4);
    s.update(Msg::Click(4, 6));
    s.update(Msg::TextChanged(String::from("lunch")));
    let req = s.update(Msg::EditSubmit).expect("write");
    let now = d(2023, 1, 4);
    let away = s.navigate_target(NavTarget::Next, now).expect("in range");
    s.finish_navigate(away.anchor, None).expect("loads");
    assert_eq!(s.week.days[4][6].content, "");
    let back = s.navigate_target(NavTarget::Last, now).expect("in range");
    s.finish_navigate(back.anchor, Some(&req.contents)).expect("loads");
    assert_eq!(s.week.days[4][6].content, "lunch");
}

#[test]
fn corrupt_file_fails_session_open() {
    assert!(Session::new(d(2023, 1, 4), Some("not a grid")).is_err());
}

#[test]
fn corrupt_file_fails_navigation_and_keeps_state() {
    let now = d(2023, 1, 4);
    let mut s = fresh(2023, 1, 4);
    s.update(Msg::Click(0, 0));
    let plan = s.navigate_target(NavTarget::Next, now).expect("in range");
    assert!(s.finish_navigate(plan.anchor, Some("broken")).is_err());
    // the session still shows the old week and selection
    assert_eq!(s.anchor, d(2023, 1, 4));
    assert_eq!(s.selected, Some((0, 0)));
}

#[test]
fn set_today_moves_the_highlight() {
    let mut s = fresh(2023, 1, 4);
    assert_eq!(s.cell_look_at(2, 0), CellLook::TodayEmpty);
    s.set_today(d(2023, 1, 6));
    assert_eq!(s.cell_look_at(2, 0), CellLook::Empty);
    assert_eq!(s.cell_look_at(4, 0), CellLook::TodayEmpty);
}
