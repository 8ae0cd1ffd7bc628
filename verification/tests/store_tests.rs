use freetime::date::{Date, week_identifier};
use freetime::model::{WeekGrid, date_hour_string, cell_look, look_label, CellLook};
use freetime::store::{save_week, load_week, week_file_path, CorruptStoreError};

fn d(y: u64, m: u64, day: u64) -> Date {
    Date::from_civil(y, m, day).expect("valid date")
}

#[test]
fn init_week_shape_and_labels() {
    // 7 columns by 13 slots, hours 8 through 20 ascending, contents empty
    let grid = WeekGrid::init_week(d(2023, 1, 4));
    assert_eq!(grid.days.len(), 7);
    for (i, col) in grid.days.iter().enumerate() {
        assert_eq!(col.len(), 13);
        for (j, unit) in col.iter().enumerate() {
            assert_eq!(unit.content, "");
            assert_eq!(unit.day, 2 + i as u32);
            let suffix = format!(" {}:00", 8 + j);
            assert!(unit.date_hour.ends_with(&suffix), "{}", unit.date_hour);
        }
    }
    assert_eq!(grid.days[0][0].date_hour, "1/2/2023 8:00");
    assert_eq!(grid.days[0][12].date_hour, "1/2/2023 20:00");
    assert_eq!(grid.days[6][0].date_hour, "1/8/2023 8:00");
}

#[test]
fn init_week_spans_month_boundary() {
    // the week of 2023-08-31 runs August 28 through September 3
    let grid = WeekGrid::init_week(d(2023, 8, 31));
    assert_eq!(grid.days[0][0].date_hour, "8/28/2023 8:00");
    assert_eq!(grid.days[4][0].date_hour, "9/1/2023 8:00");
    assert_eq!(grid.days[6][0].date_hour, "9/3/2023 8:00");
    assert_eq!(grid.days[6][0].day, 3);
}

#[test]
fn date_hour_formatting() {
    assert_eq!(date_hour_string(d(2023, 1, 2), 8), "1/2/2023 8:00");
    assert_eq!(date_hour_string(d(2024, 12, 31), 20), "12/31/2024 20:00");
}

#[test]
fn week_file_path_names_monday_and_sunday() {
    let id = week_identifier(d(2023, 1, 4));
    assert_eq!(week_file_path(id), ".freetime/1_2_2023-1_8_2023.week");
    // a week that crosses a year boundary names both years
    let id2 = week_identifier(d(2020, 12, 31));
    assert_eq!(week_file_path(id2), ".freetime/12_28_2020-1_3_2021.week");
}

#[test]
fn same_week_same_path() {
    let p1 = week_file_path(week_identifier(d(2023, 1, 2)));
    let p2 = week_file_path(week_identifier(d(2023, 1, 5)));
    let p3 = week_file_path(week_identifier(d(2023, 1, 8)));
    assert_eq!(p1, p2);
    assert_eq!(p1, p3);
}

#[test]
fn save_then_load_round_trips_blank_grid() {
    let anchor = d(2023, 1, 4);
    let grid = WeekGrid::init_week(anchor);
    let text = save_week(&grid);
    let reloaded = load_week(anchor, Some(&text)).expect("decodes");
    assert_grids_equal(&grid, &reloaded);
}

#[test]
fn save_then_load_round_trips_edited_grid() {
    let anchor = d(2023, 1, 4);
    let mut grid = WeekGrid::init_week(anchor);
    grid.set_content(0, 0, String::from("Meeting"));
    grid.set_content(6, 12, String::from("notes with\nnewline and 7:colon"));
    grid.set_content(3, 5, String::from("unicode: héllo⌘"));
    let text = save_week(&grid);
    let reloaded = load_week(anchor, Some(&text)).expect("decodes");
    assert_grids_equal(&grid, &reloaded);
    assert_eq!(reloaded.days[0][0].content, "Meeting");
    assert_eq!(reloaded.days[6][12].content, "notes with\nnewline and 7:colon");
    assert_eq!(reloaded.days[3][5].content, "unicode: héllo⌘");
}

#[test]
fn missing_file_yields_blank_week() {
    let anchor = d(2023, 1, 4);
    let loaded = load_week(anchor, None).expect("fresh week");
    for col in &loaded.days {
        for unit in col {
            assert_eq!(unit.content, "");
        }
    }
    let fresh = WeekGrid::init_week(anchor);
    assert_grids_equal(&fresh, &loaded);
}

#[test]
fn corrupt_file_is_an_error() {
    let anchor = d(2023, 1, 4);
    match load_week(anchor, Some("garbage")) {
        Err(e) => assert_eq!(e, CorruptStoreError),
        Ok(_) => panic!("garbage must not decode"),
    }
}

#[test]
fn truncated_file_is_an_error() {
    let anchor = d(2023, 1, 4);
    let text = save_week(&WeekGrid::init_week(anchor));
    let truncated = &text[..text.len() - 5];
    assert!(load_week(anchor, Some(truncated)).is_err());
    assert!(load_week(anchor, Some("")).is_err());
    let padded = format!("{} ", text);
    assert!(load_week(anchor, Some(&padded)).is_err());
}

#[test]
fn non_canonical_numerals_are_rejected() {
    let anchor = d(2023, 1, 4);
    let text = save_week(&WeekGrid::init_week(anchor));
    // the first block length "13:" gains a leading zero: same data, not canonical
    let tampered = text.replacen("13:", "013:", 1);
    assert!(load_week(anchor, Some(&tampered)).is_err());
}

#[test]
fn header_is_checked() {
    let anchor = d(2023, 1, 4);
    let text = save_week(&WeekGrid::init_week(anchor));
    let tampered = text.replacen("week-grid-v1", "week-grid-v2", 1);
    assert!(load_week(anchor, Some(&tampered)).is_err());
}

#[test]
fn saving_twice_gives_identical_bytes() {
    // deterministic serialization: equal grids persist to equal bytes
    let anchor = d(2023, 1, 4);
    let mut grid = WeekGrid::init_week(anchor);
    grid.set_content(2, 3, String::from("gym"));
    let once = save_week(&grid);
    grid.set_content(2, 3, String::from("gym"));
    let twice = save_week(&grid);
    assert_eq!(once, twice);
}

#[test]
fn cell_look_precedence() {
    let mut grid = WeekGrid::init_week(d(2023, 1, 4));
    let today_dom = grid.days[2][0].day;
    // empty and not today
    assert_eq!(cell_look(&grid.days[0][0], today_dom), CellLook::Empty);
    // empty and today
    assert_eq!(cell_look(&grid.days[2][5], today_dom), CellLook::TodayEmpty);
    // filled beats the today highlight
    grid.set_content(2, 5, String::from("busy"));
    assert_eq!(cell_look(&grid.days[2][5], today_dom), CellLook::Filled);
    grid.set_content(0, 0, String::from("busy"));
    assert_eq!(cell_look(&grid.days[0][0], today_dom), CellLook::Filled);
}

#[test]
fn look_labels_are_five_characters() {
    assert_eq!(look_label(CellLook::Empty), "-----");
    assert_eq!(look_label(CellLook::TodayEmpty), "+++++");
    assert_eq!(look_label(CellLook::Filled), ":::::");
}

fn assert_grids_equal(a: &WeekGrid, b: &WeekGrid) {
    assert_eq!(a.days.len(), b.days.len());
    for (ca, cb) in a.days.iter().zip(b.days.iter()) {
        assert_eq!(ca.len(), cb.len());
        for (ua, ub) in ca.iter().zip(cb.iter()) {
            assert_eq!(ua.date_hour, ub.date_hour);
            assert_eq!(ua.content, ub.content);
            assert_eq!(ua.day, ub.day);
        }
    }
}
