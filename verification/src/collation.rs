//! How text a person reads is ordered.
//!
//! Two rules, not a bag of options: [`compare_names`] for names of things,
//! where case and accents do not separate two names a person would call the
//! same, and [`compare_titles`] for text the user wrote, where digit runs sort
//! by value, so "Kapitel 2" comes before "Kapitel 10".

use core::cmp::Ordering;
use vstd::prelude::*;

use crate::text::{lemma_precedes_total, precedes, same, split, split_on, text_before, texts};

verus! {

/// The language whose ordering rules apply.
#[derive(Debug, Clone, Copy, PartialEq, Eq, Structural)]
pub enum CollationLanguage {
    /// German. The default.
    German,
    /// English.
    English,
}

impl Default for CollationLanguage {
    fn default() -> (r: CollationLanguage)
        ensures
            r == CollationLanguage::German,
    {
        CollationLanguage::German
    }
}

/// The language a tag names: what stands before the first `-` or `_`. Anything
/// but English is the default.
pub open spec fn language_of(tag: Seq<char>) -> CollationLanguage {
    if split_on(split_on(tag, '-')[0], '_')[0] == "en"@ {
        CollationLanguage::English
    } else {
        CollationLanguage::German
    }
}

impl CollationLanguage {
    /// Reads a language tag (`"de"`, `"de-DE"`, `"en"`, `"en_GB"`, …).
    /// Anything unrecognised answers the default rather than failing.
    pub fn from_tag(tag: &str) -> (r: CollationLanguage)
        ensures
            r == language_of(tag@),
    {
        let dashes = split(tag, '-');
        assert(texts(dashes@)[0] == dashes@[0]@);
        let lines = split(dashes[0].as_str(), '_');
        assert(texts(lines@)[0] == lines@[0]@);
        if same(lines[0].as_str(), "en") {
            CollationLanguage::English
        } else {
            CollationLanguage::German
        }
    }

    /// The language's own tag.
    pub open spec fn tag(self) -> Seq<char> {
        match self {
            CollationLanguage::German => "de"@,
            CollationLanguage::English => "en"@,
        }
    }

    fn locale(self) -> (r: &'static str)
        ensures
            r@ == self.tag(),
    {
        match self {
            CollationLanguage::German => "de",
            CollationLanguage::English => "en",
        }
    }
}

/// How `icu_collator`'s collator orders two texts: for the locale of `tag`,
/// with digit runs by value where `numeric`, and by base letters alone where
/// `base_letters`. Nothing where it has no data for the locale.
pub uninterp spec fn collation(
    a: Seq<char>,
    b: Seq<char>,
    tag: Seq<char>,
    numeric: bool,
    base_letters: bool,
) -> Option<Ordering>;

/// Orders two texts with `Collator::try_new` and `CollatorBorrowed::compare`,
/// over the data built into `icu_collator`. The answer is named [`collation`].
#[verifier::external_body]
fn collate(a: &str, b: &str, tag: &str, numeric: bool, base_letters: bool) -> (r: Option<Ordering>)
    ensures
        r == collation(a@, b@, tag@, numeric, base_letters),
{
    let locale = tag.parse::<icu_locale_core::Locale>().ok()?;
    let mut prefs = icu_collator::CollatorPreferences::from(&locale);
    prefs.numeric_ordering = Some(if numeric {
        icu_collator::preferences::CollationNumericOrdering::True
    } else {
        icu_collator::preferences::CollationNumericOrdering::False
    });
    let mut options = icu_collator::options::CollatorOptions::default();
    options.strength = base_letters.then_some(icu_collator::options::Strength::Primary);
    Some(icu_collator::Collator::try_new(prefs, options).ok()?.compare(a, b))
}

/// The order of two texts by their characters' code points.
pub open spec fn code_point_order(a: Seq<char>, b: Seq<char>) -> Ordering {
    if precedes(a, b) {
        Ordering::Less
    } else if a == b {
        Ordering::Equal
    } else {
        Ordering::Greater
    }
}

/// Orders two texts by code points.
pub fn by_code_points(a: &str, b: &str) -> (r: Ordering)
    ensures
        r == code_point_order(a@, b@),
{
    if text_before(a, b) {
        Ordering::Less
    } else if same(a, b) {
        Ordering::Equal
    } else {
        Ordering::Greater
    }
}

/// The collator's answer, or the order by code points where it has none. That
/// fallback is plainly wrong to read, so it is noticed.
pub open spec fn collated(answer: Option<Ordering>, a: Seq<char>, b: Seq<char>) -> Ordering {
    match answer {
        Some(order) => order,
        None => code_point_order(a, b),
    }
}

/// The collator's answer, or the order by code points where it has none.
pub fn or_code_points(answer: Option<Ordering>, a: &str, b: &str) -> (r: Ordering)
    ensures
        r == collated(answer, a@, b@),
{
    match answer {
        Some(order) => order,
        None => by_code_points(a, b),
    }
}

/// The order of two names: base letters alone decide.
pub open spec fn name_order(a: Seq<char>, b: Seq<char>, language: CollationLanguage) -> Ordering {
    collated(collation(a, b, language.tag(), false, true), a, b)
}

/// The order of two titles: digit runs by value, at full strength.
pub open spec fn title_order(a: Seq<char>, b: Seq<char>, language: CollationLanguage) -> Ordering {
    collated(collation(a, b, language.tag(), true, false), a, b)
}

/// Compares two NAMES, of an account, a container, a contact, a day marker.
/// "Arbeit" and "arbeit" are the same name to a person, so neither sorts above
/// the other.
pub fn compare_names(a: &str, b: &str, language: CollationLanguage) -> (r: Ordering)
    ensures
        r == name_order(a@, b@, language),
{
    or_code_points(collate(a, b, language.locale(), false, true), a, b)
}

/// Compares two TITLES: task titles, section names, anything the user typed.
/// Full strength, unlike [`compare_names`]: two titles differing only in case
/// are different titles.
pub fn compare_titles(a: &str, b: &str, language: CollationLanguage) -> (r: Ordering)
    ensures
        r == title_order(a@, b@, language),
{
    or_code_points(collate(a, b, language.locale(), true, false), a, b)
}

/// The title `a` comes before the title `b`.
pub open spec fn title_first(a: Seq<char>, b: Seq<char>, language: CollationLanguage) -> bool {
    title_order(a, b, language) is Less
}

/// The name `a` comes before the name `b`.
pub open spec fn name_first(a: Seq<char>, b: Seq<char>, language: CollationLanguage) -> bool {
    name_order(a, b, language) is Less
}

pub fn title_comes_first(a: &str, b: &str, language: CollationLanguage) -> (r: bool)
    ensures
        r == title_first(a@, b@, language),
{
    match compare_titles(a, b, language) {
        Ordering::Less => true,
        _ => false,
    }
}

pub fn name_comes_first(a: &str, b: &str, language: CollationLanguage) -> (r: bool)
    ensures
        r == name_first(a@, b@, language),
{
    match compare_names(a, b, language) {
        Ordering::Less => true,
        _ => false,
    }
}

/// Code points order any two texts one way round: an order and its reverse
/// agree, and only a text and itself are equal.
pub proof fn code_points_are_an_order(a: Seq<char>, b: Seq<char>)
    ensures
        code_point_order(a, b) is Less <==> code_point_order(b, a) is Greater,
        code_point_order(a, b) is Equal <==> a == b,
{
    lemma_precedes_total(a, b);
}

} // verus!
