use cal_core::series_clock::{
    canonical_zone, listed_zones, series_clock_zone, written_series_zone, NameKind, ZoneName,
    ZoneTable,
};

/// A cut of the tz database: every name of UTC, the POSIX-style names, and a
/// link of each kind with its zone.
const NAMES: [(&str, &str, NameKind); 39] = [
    ("America/Argentina/Buenos_Aires", "America/Argentina/Buenos_Aires", NameKind::Zone),
    ("America/Buenos_Aires", "America/Argentina/Buenos_Aires", NameKind::Renamed1995),
    ("America/Chicago", "America/Chicago", NameKind::Zone),
    ("America/Denver", "America/Denver", NameKind::Zone),
    ("America/Los_Angeles", "America/Los_Angeles", NameKind::Zone),
    ("America/Montreal", "America/Toronto", NameKind::MergedNonZoneTab),
    ("America/New_York", "America/New_York", NameKind::Zone),
    ("America/Toronto", "America/Toronto", NameKind::Zone),
    ("Asia/Calcutta", "Asia/Kolkata", NameKind::Alternate),
    ("Asia/Kolkata", "Asia/Kolkata", NameKind::Zone),
    ("CST6CDT", "America/Chicago", NameKind::Pre1993),
    ("EST5EDT", "America/New_York", NameKind::Pre1993),
    ("Etc/GMT", "Etc/GMT", NameKind::Zone),
    ("Etc/GMT+0", "Etc/GMT", NameKind::Etcetera),
    ("Etc/GMT+8", "Etc/GMT+8", NameKind::Zone),
    ("Etc/GMT-0", "Etc/GMT", NameKind::Etcetera),
    ("Etc/GMT0", "Etc/GMT", NameKind::Etcetera),
    ("Etc/Greenwich", "Etc/GMT", NameKind::Etcetera),
    ("Etc/UCT", "Etc/UTC", NameKind::Etcetera),
    ("Etc/Universal", "Etc/UTC", NameKind::Etcetera),
    ("Etc/UTC", "Etc/UTC", NameKind::Zone),
    ("Etc/Zulu", "Etc/UTC", NameKind::Etcetera),
    ("Europe/Berlin", "Europe/Berlin", NameKind::Zone),
    ("Europe/Kiev", "Europe/Kyiv", NameKind::Alternate),
    ("Europe/Kyiv", "Europe/Kyiv", NameKind::Zone),
    ("Europe/Oslo", "Europe/Berlin", NameKind::MergedZoneTab),
    ("GMT", "Etc/GMT", NameKind::Etcetera),
    ("GMT+0", "Etc/GMT", NameKind::Etcetera),
    ("GMT-0", "Etc/GMT", NameKind::Etcetera),
    ("GMT0", "Etc/GMT", NameKind::Etcetera),
    ("Greenwich", "Etc/GMT", NameKind::Etcetera),
    ("MST7MDT", "America/Denver", NameKind::Pre1993),
    ("Pacific/Kanton", "Pacific/Kanton", NameKind::Zone),
    ("PST8PDT", "America/Los_Angeles", NameKind::Pre1993),
    ("UCT", "Etc/UTC", NameKind::Etcetera),
    ("Universal", "Etc/UTC", NameKind::Etcetera),
    ("US/Eastern", "America/New_York", NameKind::Pre1993),
    ("UTC", "Etc/UTC", NameKind::Etcetera),
    ("Zulu", "Etc/UTC", NameKind::Etcetera),
];

fn rows(names: &[(&str, &str, NameKind)]) -> Vec<ZoneName> {
    names
        .iter()
        .map(|(name, target, kind)| ZoneName {
            name: name.to_string(),
            target: target.to_string(),
            kind: *kind,
        })
        .collect()
}

fn table() -> ZoneTable {
    ZoneTable::new(rows(&NAMES)).expect("a well-formed table")
}

#[test]
fn the_names_are_sorted_folded_and_unique_when_folded() {
    assert!(ZoneTable::new(rows(&NAMES)).is_some());
    let mut swapped = rows(&NAMES);
    swapped.swap(0, 1);
    assert!(ZoneTable::new(swapped).is_none());
    let mut twice = rows(&NAMES);
    let mut again = twice[0].clone();
    again.name = again.name.to_uppercase();
    again.target = twice[0].target.clone();
    twice.insert(1, again);
    assert!(ZoneTable::new(twice).is_none());
}

#[test]
fn every_name_resolves_to_a_zone_that_resolves_to_itself() {
    let table = table();
    for (name, target, _) in NAMES {
        assert_eq!(canonical_zone(&table, name), Some(target), "{name}");
        assert_eq!(
            canonical_zone(&table, target),
            Some(target),
            "{name} -> {target}"
        );
    }
}

#[test]
fn the_listed_zones_are_the_zones_outside_etc() {
    let table = table();
    let zones: Vec<&str> = NAMES
        .iter()
        .filter(|(name, target, _)| {
            name == target && name.contains('/') && !name.starts_with("Etc/")
        })
        .map(|(name, _, _)| *name)
        .collect();
    let listed = listed_zones(&table);
    assert_eq!(listed, zones);
    for zone in [
        "Europe/Berlin",
        "Asia/Kolkata",
        "Europe/Kyiv",
        "America/Argentina/Buenos_Aires",
        "Pacific/Kanton",
    ] {
        assert!(listed.iter().any(|z| z == zone), "{zone} is not listed");
    }
}

#[test]
fn exactly_the_eighteen_utc_names_repeat_on_utc() {
    let table = table();
    let mut utc: Vec<&str> = NAMES
        .iter()
        .filter(|(name, _, _)| series_clock_zone(&table, Some(name)).is_none())
        .map(|(name, _, _)| *name)
        .collect();
    utc.sort_unstable();
    assert_eq!(
        utc,
        [
            "Etc/GMT",
            "Etc/GMT+0",
            "Etc/GMT-0",
            "Etc/GMT0",
            "Etc/Greenwich",
            "Etc/UCT",
            "Etc/UTC",
            "Etc/Universal",
            "Etc/Zulu",
            "GMT",
            "GMT+0",
            "GMT-0",
            "GMT0",
            "Greenwich",
            "UCT",
            "UTC",
            "Universal",
            "Zulu",
        ],
    );
}

#[test]
fn the_posix_style_names_are_never_listed() {
    let table = table();
    for name in ["CST6CDT", "EST5EDT", "MST7MDT", "PST8PDT"] {
        assert!(
            !listed_zones(&table).iter().any(|z| z == name),
            "{name} is listed"
        );
        assert!(
            canonical_zone(&table, name).is_some(),
            "{name} no longer resolves"
        );
    }
}

#[test]
fn every_link_has_a_reason_and_every_zone_is_itself() {
    for (name, target, kind) in NAMES {
        assert_eq!(
            name == target,
            kind == NameKind::Zone,
            "{name} -> {target} ({kind:?})"
        );
    }
    for (name, kind) in [
        ("US/Eastern", NameKind::Pre1993),
        ("America/Buenos_Aires", NameKind::Renamed1995),
        ("Europe/Oslo", NameKind::MergedZoneTab),
        ("America/Montreal", NameKind::MergedNonZoneTab),
        ("Europe/Kiev", NameKind::Alternate),
        ("GMT", NameKind::Etcetera),
    ] {
        let found = NAMES
            .iter()
            .find(|(entry, _, _)| *entry == name)
            .map(|(_, _, kind)| *kind);
        assert_eq!(found, Some(kind), "{name}");
    }
    let mut unexplained = rows(&NAMES);
    for row in &mut unexplained {
        if row.name == "GMT" {
            row.kind = NameKind::Zone;
        }
    }
    assert!(ZoneTable::new(unexplained).is_none());
}

#[test]
fn an_all_day_series_writes_no_zone() {
    for tzid in [
        Some("Europe/Berlin"),
        Some("asia/calcutta"),
        Some("UTC"),
        None,
    ] {
        assert_eq!(written_series_zone(tzid, true), None, "all-day {tzid:?}");
        assert_eq!(written_series_zone(tzid, false), tzid, "timed {tzid:?}");
    }
}

#[test]
fn a_series_keeps_the_spelling_of_its_zone() {
    let table = table();
    for (tzid, zone) in [
        (Some("etc/utc"), None),
        (Some("GMT+0"), None),
        (Some(" UTC"), None),
        (Some("Etc/Un\u{131}versal"), None),
        (Some("Asia/Calcutta"), Some("Asia/Calcutta")),
        (Some("Europe/Oslo"), Some("Europe/Oslo")),
        (Some("Etc/GMT+8"), Some("Etc/GMT+8")),
        (Some("+05:30"), None),
        (Some("europe/berlin"), Some("europe/berlin")),
        (None, None),
    ] {
        assert_eq!(series_clock_zone(&table, tzid), zone, "{tzid:?}");
    }
}

#[test]
fn a_name_resolves_in_any_ascii_case() {
    let table = table();
    assert_eq!(canonical_zone(&table, "asia/calcutta"), Some("Asia/Kolkata"));
    assert_eq!(canonical_zone(&table, "Europe/Oslo"), Some("Europe/Berlin"));
    assert_eq!(canonical_zone(&table, "Etc/GMT+8"), Some("Etc/GMT+8"));
    assert_eq!(canonical_zone(&table, "UTC"), Some("Etc/UTC"));
    assert_eq!(canonical_zone(&table, "Etc/Un\u{131}versal"), None);
    assert_eq!(canonical_zone(&table, ""), None);
}
