use cal_core::civil::Date;
use cal_core::extras::{
    apply_task_extras, embed, extract, extras_for_task, read_envelope, recurrence_needs_extras,
    AperioExtras, JsonValue, WARNING_LINE,
};
use cal_core::{
    MonthDay, RecurrenceAnchor, RecurrenceEnd, RecurrenceFrequency, RecurrencePlacement,
    TaskRecurrence,
};

const BACKLOG_RULE: &str =
    r#"{"frequency":"daily","interval":1,"placement":"backlog","anchor":"from_completion"}"#;

const DATED_RULE: &str = r#"{"anchor":"from_completion","fixed_dates":[{"day":1,"month":4}],"frequency":"daily","interval":1,"placement":"backlog"}"#;

fn value(text: &str) -> JsonValue {
    JsonValue::parse(text).expect("a JSON text")
}

fn sample() -> AperioExtras {
    let mut e = AperioExtras::new();
    e.insert("series_id", JsonValue::string("abc-123"));
    e.insert("resurface_date", JsonValue::string("2026-10-01"));
    e.insert(
        "recurrence",
        value(r#"{ "placement": "backlog", "anchor": "from_completion" }"#),
    );
    e
}

#[test]
fn round_trips_extras_and_keeps_a_clean_description() {
    let extras = sample();
    let stored = embed(Some("Geschirrspüler einräumen"), &extras).unwrap();
    assert!(stored.starts_with("Geschirrspüler einräumen"));
    assert!(stored.contains("aperio:1:"));
    assert!(!stored.contains('{') && !stored.contains('<'));

    let (clean, back) = extract(Some(&stored));
    assert_eq!(clean.as_deref(), Some("Geschirrspüler einräumen"));
    assert_eq!(back, Some(extras));
}

#[test]
fn empty_extras_writes_no_block() {
    assert_eq!(
        embed(Some("just text"), &AperioExtras::new()).as_deref(),
        Some("just text")
    );
    assert_eq!(embed(None, &AperioExtras::new()), None);
}

#[test]
fn description_without_a_block_is_untouched() {
    let (clean, extras) = extract(Some("ordinary description"));
    assert_eq!(clean.as_deref(), Some("ordinary description"));
    assert!(extras.is_none());
}

#[test]
fn embed_is_idempotent() {
    let extras = sample();
    let once = embed(Some("text"), &extras).unwrap();
    let twice = embed(Some(&once), &extras).unwrap();
    assert_eq!(once, twice, "re-embedding strips the old block first");
    assert_eq!(once.matches("aperio:1:").count(), 1, "no duplicate blocks");
}

#[test]
fn defensive_merge_preserves_a_concurrent_text_edit() {
    let with_block = embed(Some("old text"), &sample()).unwrap();
    let edited = with_block.replace("old text", "their new text");
    let mut updated = sample();
    updated.insert("resurface_date", JsonValue::string("2027-04-01"));
    let result = embed(Some(&edited), &updated).unwrap();
    let (clean, back) = extract(Some(&result));
    assert_eq!(clean.as_deref(), Some("their new text"));
    assert_eq!(back, Some(updated));
    assert_eq!(result.matches("aperio:1:").count(), 1);
}

#[test]
fn malformed_payload_degrades_to_no_extras() {
    let broken = "real text\n\n— ⚙ Aperio · please don't edit —\naperio:1:!!!not-base64!!!";
    let (clean, extras) = extract(Some(broken));
    assert!(extras.is_none());
    assert_eq!(clean.as_deref(), Some(broken));
}

#[test]
fn block_only_when_description_is_empty() {
    let stored = embed(None, &sample()).unwrap();
    assert!(stored.starts_with(WARNING_LINE));
    let (clean, back) = extract(Some(&stored));
    assert_eq!(clean, None);
    assert_eq!(back, Some(sample()));
}


fn rule(
    placement: RecurrencePlacement,
    anchor: RecurrenceAnchor,
    fixed_dates: Option<Vec<MonthDay>>,
) -> TaskRecurrence {
    TaskRecurrence {
        frequency: RecurrenceFrequency::Daily,
        interval: 1,
        day_of_week: None,
        day_of_month: None,
        end: Some(RecurrenceEnd::Never),
        anchor,
        placement,
        fixed_dates,
    }
}

#[test]
fn plain_scheduled_recurrence_needs_no_extras() {
    let plain = rule(
        RecurrencePlacement::Schedule,
        RecurrenceAnchor::FromDate,
        None,
    );
    assert!(!recurrence_needs_extras(&plain));
    let bag = extras_for_task(Some(&plain), None, None, None);
    assert!(bag.is_empty());
}

#[test]
fn backlog_recurrence_and_fields_ride_the_bag() {
    let backlog = rule(
        RecurrencePlacement::Backlog,
        RecurrenceAnchor::FromCompletion,
        None,
    );
    assert!(recurrence_needs_extras(&backlog));
    let bag = extras_for_task(
        Some(&backlog),
        Some(value(BACKLOG_RULE)),
        Some(Date::from_ymd_opt(2026, 10, 1).unwrap()),
        Some("series-7"),
    );
    assert_eq!(
        bag.get("resurface_date")
            .and_then(|v| v.as_str())
            .as_deref(),
        Some("2026-10-01"),
    );
    assert_eq!(
        bag.get("series_id").and_then(|v| v.as_str()).as_deref(),
        Some("series-7")
    );
    assert!(bag.get("recurrence").is_some());
}

#[test]
fn apply_round_trips_fields_through_a_provider_description() {
    let backlog = rule(
        RecurrencePlacement::Backlog,
        RecurrenceAnchor::FromCompletion,
        Some(vec![MonthDay { month: 4, day: 1 }]),
    );
    let bag = extras_for_task(
        Some(&backlog),
        Some(value(DATED_RULE)),
        Some(Date::from_ymd_opt(2026, 4, 1).unwrap()),
        Some("series-9"),
    );
    let stored = embed(Some("Swap shoes"), &bag).unwrap();

    let (clean, extracted) = extract(Some(&stored));
    assert_eq!(clean.as_deref(), Some("Swap shoes"));
    let mut recurrence = None;
    let mut resurface = None;
    let mut series = None;
    apply_task_extras(
        &extracted.unwrap(),
        Some(backlog.clone()),
        &mut recurrence,
        &mut resurface,
        &mut series,
    );
    assert_eq!(recurrence, Some(backlog));
    assert_eq!(resurface, Date::from_ymd_opt(2026, 4, 1));
    assert_eq!(series.as_deref(), Some("series-9"));
}

#[test]
fn apply_leaves_untouched_fields_alone() {
    let mut recurrence = None;
    let mut resurface = None;
    let mut series = Some("keep-me".to_string());
    apply_task_extras(
        &AperioExtras::new(),
        None,
        &mut recurrence,
        &mut resurface,
        &mut series,
    );
    assert!(recurrence.is_none());
    assert!(resurface.is_none());
    assert_eq!(series.as_deref(), Some("keep-me"));
}

#[test]
fn a_bag_is_a_map_from_keys_to_values() {
    let mut bag = sample();
    assert_eq!(
        bag.get("series_id").and_then(|v| v.as_str()).as_deref(),
        Some("abc-123")
    );
    assert!(bag.get("recurrence").unwrap().as_str().is_none());
    bag.insert("series_id", value("7"));
    assert_eq!(bag.get("series_id").unwrap().text(), "7");
    assert_eq!(bag.remove("series_id"), Some(value("7")));
    assert_eq!(bag.remove("series_id"), None);
    assert_eq!(bag.get("series_id"), None);
    assert!(!bag.is_empty());
    assert!(AperioExtras::new().is_empty());
}

#[test]
fn a_value_is_a_json_text_in_its_one_spelling() {
    assert_eq!(value(" [1,  2] ").text(), "[1,2]");
    assert_eq!(JsonValue::string("a\"b").text(), r#""a\"b""#);
    assert_eq!(value(r#""\u0041""#).as_str().as_deref(), Some("A"));
    assert_eq!(JsonValue::parse("{"), None);
}

#[test]
fn an_envelope_is_read_whatever_its_version() {
    for text in [
        r#"{"v":1,"d":{"series_id":"s"}}"#,
        r#"{"d":{"series_id":"s"},"v":2,"more":true}"#,
    ] {
        let bag = read_envelope(text.as_bytes()).unwrap();
        assert_eq!(
            bag.get("series_id").and_then(|v| v.as_str()).as_deref(),
            Some("s")
        );
    }
    assert!(read_envelope(r#"{"v":1}"#.as_bytes()).unwrap().is_empty());
    assert!(read_envelope(r#"{"d":{}}"#.as_bytes()).is_none());
    assert!(read_envelope(r#"{"v":-1,"d":{}}"#.as_bytes()).is_none());
    assert!(read_envelope(r#"{"v":4294967296,"d":{}}"#.as_bytes()).is_none());
    assert!(read_envelope(r#"{"v":1,"d":[]}"#.as_bytes()).is_none());
    assert!(read_envelope("nonsense".as_bytes()).is_none());
}

#[test]
fn a_stored_block_is_two_lines_of_plain_text() {
    let mut bag = AperioExtras::new();
    bag.insert("series_id", JsonValue::string("s"));
    let stored = embed(Some("Text"), &bag).unwrap();
    let lines: Vec<&str> = stored.split('\n').collect();
    assert_eq!(lines[0], "Text");
    assert_eq!(lines[lines.len() - 2], WARNING_LINE);
    assert_eq!(
        lines[lines.len() - 1],
        "aperio:1:eyJ2IjoxLCJkIjp7InNlcmllc19pZCI6InMifX0="
    );
}

#[test]
fn an_unreadable_day_in_the_bag_is_passed_over() {
    let mut bag = AperioExtras::new();
    bag.insert("resurface_date", JsonValue::string("soon"));
    let mut recurrence = None;
    let mut resurface = Date::from_ymd_opt(2026, 4, 1);
    let mut series = None;
    apply_task_extras(&bag, None, &mut recurrence, &mut resurface, &mut series);
    assert_eq!(resurface, Date::from_ymd_opt(2026, 4, 1));
}

#[test]
fn embedding_twice_is_embedding_once_whatever_the_text() {
    let extras = sample();
    for text in [" a", "a\n\n", "a\r\nb", "a\r\r\nb\r\n", "\u{a0}x \n y\t", "", "\n", "a\rb"] {
        let once = embed(Some(text), &extras).unwrap();
        let twice = embed(Some(&once), &extras).unwrap();
        assert_eq!(once, twice, "{text:?}");
        let (clean, back) = extract(Some(&once));
        assert_eq!(back.as_ref(), Some(&extras));
        assert_eq!(embed(Some(&once), &AperioExtras::new()), clean);
    }
    let once = embed(Some(" a\r\nb "), &extras).unwrap();
    assert_eq!(extract(Some(&once)).0.as_deref(), Some("a\nb"));
}

#[test]
fn another_bag_takes_the_place_of_the_first() {
    let mut other = AperioExtras::new();
    other.insert("series_id", JsonValue::string("later"));
    let first = embed(Some("Text\r\n"), &sample());
    assert_eq!(
        embed(first.as_deref(), &other),
        embed(Some("Text\r\n"), &other)
    );
}

#[test]
fn a_text_without_a_block_keeps_its_white_space() {
    assert_eq!(extract(Some(" a\r\n")).0.as_deref(), Some(" a\r\n"));
    assert_eq!(
        embed(Some(" a\r\n"), &AperioExtras::new()).as_deref(),
        Some(" a\r\n")
    );
}

#[test]
fn long_and_deep_values_come_back() {
    let flat = format!("[{}]", vec!["{}"; 300].join(","));
    let deep = format!("{}{}", "[".repeat(125), "]".repeat(125));
    let mut bag = AperioExtras::new();
    bag.insert("flat", value(&flat));
    bag.insert("deep", value(&deep));
    bag.insert("text", value(r#"{"a":"] \" 1.5","n":-12,"z":[true,null]}"#));
    let stored = embed(Some("Text"), &bag).unwrap();
    assert_eq!(extract(Some(&stored)), (Some("Text".into()), Some(bag)));
}

#[test]
fn an_envelope_names_each_of_its_two_members_once() {
    let read = |text: &str| read_envelope(text.as_bytes());
    assert!(read(r#"{"v":1,"v":1,"d":{"a":1}}"#).is_none());
    assert!(read(r#"{"v":1,"d":{"a":1},"d":{}}"#).is_none());
    assert!(read(r#"{"\u0076":1,"v":1}"#).is_none());
    let bag = read(r#" { "\u0076" : 1 , "d" : { "a" : [ 1 , 2 ] } , "x" : 1 , "x" : 2 } "#).unwrap();
    assert_eq!(bag.get("a").unwrap().text(), "[1,2]");
}

#[test]
fn the_list_of_the_two_is_an_envelope_too() {
    let read = |text: &str| read_envelope(text.as_bytes());
    let bag = read(r#"[7,{"a":"x"}]"#).unwrap();
    assert_eq!(bag.get("a").unwrap().as_str().as_deref(), Some("x"));
    assert!(read("[7]").unwrap().is_empty());
    for text in ["[]", r#"[7,{},1]"#, r#"["7",{}]"#, "[7,[]]", "[-1]", "7", "[7,]"] {
        assert!(read(text).is_none(), "{text}");
    }
}

#[test]
fn what_stands_beside_the_two_is_passed_over_unread() {
    let deep = format!("{}{}", "[".repeat(300), "]".repeat(300));
    for beside in ["1e999", r#""\ud800""#, deep.as_str(), r#"{"v":2,"d":[",","]"]}"#] {
        let text = format!(r#"{{"z":{beside},"d":{{"a":1}},"v":3,"y":{beside}}}"#);
        let bag = read_envelope(text.as_bytes()).unwrap();
        assert_eq!(bag.get("a").unwrap().text(), "1", "{beside}");
    }
    let mut bytes = br#"{"v":1,"z":"?"}"#.to_vec();
    bytes[12] = 0xff;
    assert!(read_envelope(&bytes).unwrap().is_empty());
    let mut bytes = br#"{"v":1,"?":1}"#.to_vec();
    bytes[8] = 0xff;
    assert!(read_envelope(&bytes).is_none());
    assert!(read_envelope(br#"{"v":1,"\ud800":1}"#).is_none());
    assert!(read_envelope(br#"{"v":1,"z":01}"#).is_none());
    assert!(read_envelope(br#"{"v":1,"d":{"a":1e999}}"#).is_none());
}

#[test]
fn data_is_read_as_deep_as_a_reader_follows() {
    let nested = |n: usize| format!(r#"{{"v":1,"d":{{"a":{}{}}}}}"#, "[".repeat(n), "]".repeat(n));
    assert!(read_envelope(nested(125).as_bytes()).is_some());
    assert!(read_envelope(nested(126).as_bytes()).is_none());
}

#[test]
fn a_bag_with_a_fraction_is_replaced_and_not_stacked() {
    let mut bag = AperioExtras::new();
    bag.insert("share", value("[0.1,1e300,2.5e-7]"));
    let once = embed(Some("Text"), &bag).unwrap();
    assert_eq!(embed(Some(&once), &bag).as_deref(), Some(once.as_str()));
    assert_eq!(once.matches("aperio:1:").count(), 1);
    assert_eq!(extract(Some(&once)).0.as_deref(), Some("Text"));
}

#[test]
fn the_json_of_a_rule_comes_back_from_the_description() {
    let backlog = rule(
        RecurrencePlacement::Backlog,
        RecurrenceAnchor::FromCompletion,
        Some(vec![MonthDay { month: 4, day: 1 }]),
    );
    let bag = extras_for_task(Some(&backlog), Some(value(DATED_RULE)), None, None);
    let stored = embed(Some("Swap shoes"), &bag).unwrap();
    let (clean, extracted) = extract(Some(&stored));
    assert_eq!(clean.as_deref(), Some("Swap shoes"));
    assert_eq!(extracted.unwrap().get("recurrence").unwrap().text(), DATED_RULE);
}
