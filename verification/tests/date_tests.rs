use freetime::date::Date;

fn d(y: u64, m: u64, day: u64) -> Date {
    Date::from_civil(y, m, day).expect("valid date")
}

#[test]
fn epoch_is_monday() {
    let first = d(1, 1, 1);
    assert_eq!(first.rd, 1);
    assert_eq!(first.weekday(), 0);
}

#[test]
fn civil_round_trips_through_day_numbers() {
    let cases = [
        (1u64, 1u64, 1u64),
        (1970, 1, 1),
        (2000, 2, 29),
        (2023, 1, 2),
        (2024, 12, 31),
        (9999, 12, 31),
    ];
    for (y, m, dd) in cases {
        let date = d(y, m, dd);
        assert_eq!(date.civil(), (y, m, dd));
    }
}

#[test]
fn from_civil_rejects_invalid_dates() {
    assert!(Date::from_civil(2023, 2, 29).is_none());
    assert!(Date::from_civil(1900, 2, 29).is_none());
    assert!(Date::from_civil(2024, 2, 29).is_some());
    assert!(Date::from_civil(2000, 2, 29).is_some());
    assert!(Date::from_civil(2023, 4, 31).is_none());
    assert!(Date::from_civil(2023, 13, 1).is_none());
    assert!(Date::from_civil(2023, 0, 1).is_none());
    assert!(Date::from_civil(2023, 1, 0).is_none());
    assert!(Date::from_civil(0, 1, 1).is_none());
    assert!(Date::from_civil(10000, 1, 1).is_none());
}

#[test]
fn known_weekdays() {
    assert_eq!(d(2023, 1, 1).weekday(), 6); // a Sunday
    assert_eq!(d(2023, 1, 2).weekday(), 0); // a Monday
    assert_eq!(d(2021, 1, 1).weekday(), 4); // a Friday
    assert_eq!(d(2026, 10, 12).weekday(), 0); // a Monday
}

#[test]
fn monday_of_week_is_shared_by_all_seven_days() {
    let monday = d(2023, 1, 2);
    for k in 0..7u64 {
        let day = Date { rd: monday.rd + k };
        assert_eq!(day.monday().rd, monday.rd);
    }
    let next_monday = Date { rd: monday.rd + 7 };
    assert_eq!(next_monday.monday().rd, monday.rd + 7);
}

#[test]
fn week_identifier_same_for_same_week() {
    // property check on concrete values: any two dates of one ISO week
    // resolve to the same identifier
    let monday = d(2023, 1, 2);
    let wednesday = d(2023, 1, 4);
    let sunday = d(2023, 1, 8);
    let id1 = freetime::date::week_identifier(monday);
    let id2 = freetime::date::week_identifier(wednesday);
    let id3 = freetime::date::week_identifier(sunday);
    assert_eq!(id1, id2);
    assert_eq!(id1, id3);
    let outside = d(2023, 1, 9);
    assert_ne!(id1, freetime::date::week_identifier(outside));
}

#[test]
fn week_bounds_span_monday_to_sunday() {
    let wednesday = d(2023, 1, 4);
    let (monday, sunday) = freetime::date::week_bounds(wednesday);
    assert_eq!(monday.civil(), (2023, 1, 2));
    assert_eq!(sunday.civil(), (2023, 1, 8));
}

#[test]
fn iso_week_at_year_boundary() {
    // January 1, 2021 (a Friday) belongs to ISO week 53 of 2020
    assert_eq!(freetime::date::iso_year_week(d(2021, 1, 1)), (2020, 53));
    // January 1, 2023 (a Sunday) belongs to ISO week 52 of 2022
    assert_eq!(freetime::date::iso_year_week(d(2023, 1, 1)), (2022, 52));
    // January 2, 2023 starts ISO week 1 of 2023
    assert_eq!(freetime::date::iso_year_week(d(2023, 1, 2)), (2023, 1));
    // December 29, 2025 (a Monday) starts ISO week 1 of 2026
    assert_eq!(freetime::date::iso_year_week(d(2025, 12, 29)), (2026, 1));
}

#[test]
fn adjacent_weeks_across_year_boundary() {
    // next week from the last week of 2020 lands in week 53, then week 1 of 2021
    let late = d(2020, 12, 30);
    let next = late.next_week().expect("in range");
    assert_eq!(freetime::date::iso_year_week(next), (2021, 1));
    let back = next.previous_week().expect("in range");
    assert_eq!(freetime::date::iso_year_week(back), (2020, 53));
    assert_eq!(back.monday().rd, late.monday().rd);
}

#[test]
fn next_then_previous_returns_to_same_week() {
    for (y, m, dd) in [(2021u64, 1u64, 1u64), (2023, 6, 15), (2024, 12, 31)] {
        let start = d(y, m, dd);
        let next = start.next_week().expect("in range");
        let back = next.previous_week().expect("in range");
        assert_eq!(back.monday().rd, start.monday().rd);
        let prev = start.previous_week().expect("in range");
        let forward = prev.next_week().expect("in range");
        assert_eq!(forward.monday().rd, start.monday().rd);
    }
}

#[test]
fn previous_week_at_calendar_start_is_none() {
    // the very first week has no predecessor
    let early = d(1, 1, 3);
    assert!(early.previous_week().is_none());
    let second_week = d(1, 1, 8);
    assert!(second_week.previous_week().is_some());
}

#[test]
fn next_week_at_calendar_end_is_none() {
    let late = d(9999, 12, 30);
    assert!(late.next_week().is_none());
}

#[test]
fn clock_reading_is_validated() {
    let good = freetime::clock::date_from_clock(2026, 10, 12);
    assert_eq!(good.civil(), (2026, 10, 12));
    // an unusable reading falls back to a fixed date rather than failing
    let bad = freetime::clock::date_from_clock(2026, 2, 30);
    assert_eq!(bad.civil(), (1970, 1, 1));
    let far = freetime::clock::date_from_clock(20000, 1, 1);
    assert_eq!(far.civil(), (1970, 1, 1));
}

#[test]
fn current_date_is_usable() {
    let today = freetime::clock::current_date();
    let (y, m, dd) = today.civil();
    assert!((1..=9998).contains(&y));
    assert!((1..=12).contains(&m));
    assert!((1..=31).contains(&dd));
    assert!(today.next_week().is_some());
    assert!(today.previous_week().is_some());
}
