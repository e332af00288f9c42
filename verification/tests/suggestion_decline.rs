use cal_core::SuggestionDecline;

fn decline(declined_at: &str, cleared_at: Option<&str>) -> SuggestionDecline {
    let mut d = SuggestionDecline::new(("work", "a"), ("private", "b"), declined_at.into());
    d.cleared_at = cleared_at.map(str::to_string);
    d
}

#[test]
fn a_pair_is_kept_in_one_order() {
    let one = SuggestionDecline::new(("work", "a"), ("private", "b"), "t".into());
    let two = SuggestionDecline::new(("private", "b"), ("work", "a"), "t".into());
    assert_eq!(one, two);
    assert_eq!((one.calendar_a.as_str(), one.event_a.as_str()), ("private", "b"));
    assert_eq!((one.calendar_b.as_str(), one.event_b.as_str()), ("work", "a"));
}

#[test]
fn the_later_stamp_decides() {
    assert!(decline("2026-08-09T12:00:00Z", None).is_declined());
    assert!(decline("2026-08-09T12:00:00Z", Some("2026-08-09T12:00:00Z")).is_declined());
    assert!(!decline("2026-08-09T12:00:00Z", Some("2026-08-09T13:00:00Z")).is_declined());
}

#[test]
fn records_merge_to_the_same_in_any_order() {
    let a = decline("2026-08-09T12:00:00Z", Some("2026-08-09T13:00:00Z"));
    let b = decline("2026-08-09T14:00:00Z", None);
    let mut ab = a.clone();
    ab.merge(&b);
    let mut ba = b.clone();
    ba.merge(&a);
    assert_eq!(ab, ba);
    let refused = decline("2026-08-09T12:00:00Z", None);
    let mut merged = refused.clone();
    merged.merge(&decline("2026-08-08T12:00:00Z", None));
    assert!(merged.is_declined());
    assert_eq!(merged, refused);
}

#[test]
fn merging_keeps_the_later_of_each_stamp() {
    let mut mine = decline("2026-08-09T12:00:00Z", Some("2026-08-09T13:00:00Z"));
    let theirs = decline("2026-08-09T14:00:00Z", None);
    mine.merge(&theirs);
    assert_eq!(mine.declined_at, "2026-08-09T14:00:00Z");
    assert_eq!(mine.cleared_at.as_deref(), Some("2026-08-09T13:00:00Z"));
    assert!(mine.is_declined());
    let merged = mine.clone();
    mine.merge(&theirs);
    assert_eq!(mine, merged);
}
