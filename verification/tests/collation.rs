use cal_core::collation::{
    by_code_points, compare_names, compare_titles, or_code_points, CollationLanguage,
};
use std::cmp::Ordering;

#[test]
fn titles_order_digit_runs_by_value() {
    assert_eq!(
        compare_titles("Kapitel 2", "Kapitel 10", CollationLanguage::German),
        Ordering::Less
    );
    assert_eq!(
        compare_titles("Datei 9", "Datei 100", CollationLanguage::German),
        Ordering::Less
    );
}

#[test]
fn titles_are_alphabetical_across_case() {
    assert_eq!(
        compare_titles("apfel", "Zebra", CollationLanguage::German),
        Ordering::Less
    );
}

#[test]
fn german_umlauts_sort_with_their_base_letter() {
    assert_eq!(
        compare_titles("Äpfel", "Zebra", CollationLanguage::German),
        Ordering::Less
    );
    assert_eq!(
        compare_names("Ärger", "Zebra", CollationLanguage::German),
        Ordering::Less
    );
}

#[test]
fn names_ignore_case_and_accents() {
    assert_eq!(
        compare_names("Arbeit", "arbeit", CollationLanguage::German),
        Ordering::Equal
    );
    assert_eq!(
        compare_names("resume", "résumé", CollationLanguage::English),
        Ordering::Equal
    );
}

#[test]
fn titles_keep_case_apart() {
    assert_ne!(
        compare_titles("Arbeit", "arbeit", CollationLanguage::German),
        Ordering::Equal
    );
}

#[test]
fn a_language_tag_is_read_leniently_and_never_fails() {
    assert_eq!(
        CollationLanguage::from_tag("en"),
        CollationLanguage::English
    );
    assert_eq!(
        CollationLanguage::from_tag("en-GB"),
        CollationLanguage::English
    );
    assert_eq!(CollationLanguage::from_tag("de"), CollationLanguage::German);
    assert_eq!(
        CollationLanguage::from_tag("de_AT"),
        CollationLanguage::German
    );
    assert_eq!(CollationLanguage::from_tag("fr"), CollationLanguage::German);
    assert_eq!(CollationLanguage::from_tag(""), CollationLanguage::German);
}

#[test]
fn the_comparison_is_a_proper_ordering() {
    let values = ["", "a", "A", "Äpfel", "apfel", "Datei 2", "Datei 10"];
    for a in values {
        assert_eq!(
            compare_titles(a, a, CollationLanguage::German),
            Ordering::Equal
        );
        for b in values {
            assert_eq!(
                compare_titles(a, b, CollationLanguage::German),
                compare_titles(b, a, CollationLanguage::German).reverse(),
                "{a:?} vs {b:?}"
            );
        }
    }
}

#[test]
fn without_a_collator_code_points_decide() {
    assert_eq!(by_code_points("Zebra", "apfel"), Ordering::Less);
    assert_eq!(by_code_points("a", "a"), Ordering::Equal);
    assert_eq!(by_code_points("ab", "a"), Ordering::Greater);
    assert_eq!(or_code_points(None, "b", "a"), Ordering::Greater);
    assert_eq!(
        or_code_points(Some(Ordering::Equal), "b", "a"),
        Ordering::Equal
    );
}

#[test]
fn names_order_digits_one_by_one() {
    assert_eq!(
        compare_names("Liste 2", "Liste 10", CollationLanguage::English),
        Ordering::Greater
    );
}
