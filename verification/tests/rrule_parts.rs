use cal_core::rrule_parts::{
    is_utc_date_time, parse_freq, parse_interval, parse_parts, parse_weekday_token, part, Freq,
};
use cal_core::Weekday;

#[test]
fn a_rule_is_read_the_way_both_readers_need_it() {
    let (prefix, parts) = parse_parts("rrule:FREQ=weekly;byday=mo,we;INTERVAL=2;").unwrap();
    assert_eq!(prefix, "rrule:");
    assert_eq!(parts.len(), 3);
    assert_eq!(part(&parts, "BYDAY"), Some("mo,we"));
    assert_eq!(
        parse_freq(part(&parts, "FREQ").unwrap()),
        Some(Freq::Weekly)
    );
    assert_eq!(parse_interval(part(&parts, "INTERVAL")), Some(2));
    assert_eq!(parse_interval(None), Some(1));
    assert_eq!(parse_interval(Some("0")), None);
    assert_eq!(parse_interval(Some("two")), None);
    assert!(parse_parts("FREQ=WEEKLY;INTERVAL=2;interval=3").is_err());
    assert!(parse_parts("FREQ=WEEKLY;BYDAY").is_err());
    assert_eq!(parse_freq("Monthly"), Some(Freq::Monthly));
    assert_eq!(parse_freq("FORTNIGHTLY"), None);
}

#[test]
fn a_weekday_token_carries_its_ordinal() {
    assert_eq!(parse_weekday_token("we"), Some((None, Weekday::Wednesday)));
    assert_eq!(parse_weekday_token("2SU"), Some((Some(2), Weekday::Sunday)));
    assert_eq!(
        parse_weekday_token("-1FR"),
        Some((Some(-1), Weekday::Friday))
    );
    assert_eq!(parse_weekday_token("0MO"), None);
    assert_eq!(parse_weekday_token("XX"), None);
    assert_eq!(parse_weekday_token("M"), None);
}

#[test]
fn only_a_utc_date_time_until_is_one() {
    assert!(is_utc_date_time("20260630T235959Z"));
    assert!(is_utc_date_time("20260630T235959z"));
    assert!(!is_utc_date_time("20260630"));
    assert!(!is_utc_date_time("20260630T235959"));
    assert!(!is_utc_date_time("2026-06-30T23:59:59Z"));
}
