use freetime::codec::{parse_dec, parse_str_block};
use freetime::date::Date;
use freetime::model::WeekGrid;
use freetime::store::{load_week, save_week};

fn chars(s: &str) -> Vec<char> {
    s.chars().collect()
}

#[test]
fn numerals_parse_canonically() {
    assert_eq!(parse_dec(&chars("123:"), 0), Some((123, 3)));
    assert_eq!(parse_dec(&chars("0:"), 0), Some((0, 1)));
    assert_eq!(parse_dec(&chars("90"), 0), Some((90, 2)));
    assert_eq!(parse_dec(&chars("abc12"), 3), Some((12, 5)));
}

#[test]
fn numerals_reject_bad_forms() {
    // no digits at all
    assert_eq!(parse_dec(&chars(":"), 0), None);
    assert_eq!(parse_dec(&chars(""), 0), None);
    // leading zero is not canonical
    assert_eq!(parse_dec(&chars("0123"), 0), None);
    assert_eq!(parse_dec(&chars("00"), 0), None);
}

#[test]
fn numerals_reject_overflow() {
    assert_eq!(parse_dec(&chars("18446744073709551615:"), 0), Some((u64::MAX, 20)));
    assert_eq!(parse_dec(&chars("18446744073709551616:"), 0), None);
    assert_eq!(parse_dec(&chars("99999999999999999999999:"), 0), None);
}

#[test]
fn string_blocks_round_trip_any_text() {
    let block = chars("5:héllo\nrest");
    let (text, next) = parse_str_block(&block, 0).expect("well-formed block");
    assert_eq!(text, "héllo");
    assert_eq!(next, 8);
    // the length counts characters, and the closing newline is required
    assert_eq!(parse_str_block(&chars("5:hello"), 0), None);
    assert_eq!(parse_str_block(&chars("5:hellox"), 0), None);
    assert_eq!(parse_str_block(&chars("2:hello\n"), 0), None);
}

#[test]
fn day_field_larger_than_u32_is_rejected() {
    let anchor = Date::from_civil(2023, 1, 4).expect("valid date");
    let text = save_week(&WeekGrid::init_week(anchor));
    let tampered = text.replacen("\n2\n", "\n4294967296\n", 1);
    assert_ne!(text, tampered);
    assert!(load_week(anchor, Some(&tampered)).is_err());
}
