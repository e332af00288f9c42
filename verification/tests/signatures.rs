use cal_core::signatures::{apply_signature, signature_in, strip_signature, SIGNATURE_MARKER};

#[test]
fn the_marker_is_the_fixtures() {
    assert_eq!(SIGNATURE_MARKER, "-- ");
}

#[test]
fn the_wire_round_trips() {
    assert_eq!(
        apply_signature("Agenda.", "Raum 42"),
        "Agenda.\n\n-- \nRaum 42"
    );
    assert_eq!(signature_in("Nur Text."), None);
    assert_eq!(strip_signature("Agenda.\n\n-- \nRaum 42"), "Agenda.");
}

#[test]
fn the_last_marker_opens_the_block() {
    let text = "Hallo\n-- \nfremd\n-- \neigen";
    assert_eq!(signature_in(text).as_deref(), Some("eigen"));
    assert_eq!(strip_signature(text), "Hallo\n-- \nfremd");
}

#[test]
fn a_marker_may_lose_its_trailing_space_but_not_gain_a_leading_one() {
    assert_eq!(signature_in("a\n--\nb").as_deref(), Some("b"));
    assert_eq!(signature_in("a\n-- \u{FEFF}\nb").as_deref(), Some("b"));
    assert_eq!(signature_in("a\n--\r\nb").as_deref(), Some("b"));
    assert_eq!(signature_in("a\n--\u{85}\nb"), None);
    assert_eq!(signature_in("a\n -- \nb"), None);
    assert_eq!(signature_in("a\n-- ").as_deref(), Some(""));
}

#[test]
fn applying_twice_leaves_one_block() {
    let once = apply_signature("Agenda.", "eins");
    let twice = apply_signature(&once, "zwei");
    assert_eq!(twice, "Agenda.\n\n-- \nzwei");
    assert_eq!(apply_signature(&once, "eins"), once);
    assert_eq!(apply_signature(&once, " \n"), "Agenda.");
}

#[test]
fn a_description_of_blanks_is_nothing() {
    assert_eq!(apply_signature(" \u{FEFF}\n", "x"), "-- \nx");
    assert_eq!(apply_signature("\u{85}", "x"), "\u{85}\n\n-- \nx");
    assert_eq!(strip_signature("a\n \n\n-- \nb"), "a");
}
