//! Reading an `RRULE` into its parts, once for every rule that asks.
//!
//! Whitespace around a value is dropped, keys are upper-cased, empty parts (a
//! trailing `;`) are skipped, and a part given twice makes the rule unreadable:
//! RFC 5545 allows each once, and readers disagree on which copy wins.

use vstd::prelude::*;

use crate::text::{
    ascii_upper, chars_of, decimal, digit_char, first_index, is_blank, is_digit,
    lemma_decimal_reads_back, lemma_first_index, lemma_trimmed_empty, lemma_trimmed_same,
    parse_signed, parse_unsigned, same, signed_in, split, split_first, split_on, split_once, string_of, texts,
    trim, trimmed, unsigned_in, upper, uppercase, Blank,
};
use crate::types::Weekday;

verus! {

/// The rule could not be read at all: a part without `=`, or a part given
/// twice.
#[derive(Debug, Clone, Copy, PartialEq, Eq, Structural)]
pub struct Unreadable;

/// One `KEY=value` part: the key upper-cased for matching, the text as written.
#[derive(Debug, Clone, PartialEq, Eq)]
pub struct Part {
    pub key: String,
    pub value: String,
    pub raw: String,
}

/// What a [`Part`] holds.
pub struct PartText {
    pub key: Seq<char>,
    pub value: Seq<char>,
    pub raw: Seq<char>,
}

impl View for Part {
    type V = PartText;

    open spec fn view(&self) -> PartText {
        PartText { key: self.key@, value: self.value@, raw: self.raw@ }
    }
}

/// What a list of parts holds.
pub open spec fn part_texts(v: Seq<Part>) -> Seq<PartText> {
    Seq::new(v.len(), |i: int| v[i]@)
}

/// How often a rule recurs: by a unit of the calendar or of the clock.
#[derive(Debug, Clone, Copy, PartialEq, Eq, Structural)]
pub enum Freq {
    Secondly,
    Minutely,
    Hourly,
    Daily,
    Weekly,
    Monthly,
    Yearly,
}

/// The `RRULE:` a trimmed rule begins with, as it was written, or nothing.
pub open spec fn rule_prefix(rule: Seq<char>) -> Seq<char> {
    if rule.len() >= 6 && uppercase(rule.take(6)) == "RRULE:"@ {
        rule.take(6)
    } else {
        Seq::empty()
    }
}

/// One part is named `key`.
pub open spec fn has_key(parts: Seq<PartText>, key: Seq<char>) -> bool {
    exists|i: int| 0 <= i < parts.len() && (#[trigger] parts[i]).key == key
}

/// The parts that the pieces between the semicolons are, or nothing where one
/// has no `=` or names a key again.
pub open spec fn parts_in(pieces: Seq<Seq<char>>) -> Option<Seq<PartText>>
    decreases pieces.len(),
{
    if pieces.len() == 0 {
        Some(Seq::empty())
    } else {
        match parts_in(pieces.drop_last()) {
            None => None,
            Some(parts) => {
                let raw = pieces.last();
                if is_blank(raw, Blank::Unicode) {
                    Some(parts)
                } else {
                    match split_first(raw, '=') {
                        None => None,
                        Some((name, value)) => {
                            let key = uppercase(trimmed(name, Blank::Unicode));
                            if has_key(parts, key) {
                                None
                            } else {
                                Some(
                                    parts.push(
                                        PartText {
                                            key,
                                            value: trimmed(value, Blank::Unicode),
                                            raw,
                                        },
                                    ),
                                )
                            }
                        },
                    }
                }
            },
        }
    }
}

/// The prefix and the parts of a rule, or nothing where it cannot be read.
pub open spec fn rule_parts(rrule: Seq<char>) -> Option<(Seq<char>, Seq<PartText>)> {
    let rule = trimmed(rrule, Blank::Unicode);
    let prefix = rule_prefix(rule);
    match parts_in(split_on(rule.skip(prefix.len() as int), ';')) {
        Some(parts) => Some((prefix, parts)),
        None => None,
    }
}

/// Once a prefix of the pieces cannot be read, nothing longer can.
proof fn lemma_parts_in_prefix(pieces: Seq<Seq<char>>, i: int)
    requires
        0 <= i <= pieces.len(),
        parts_in(pieces.take(i)) is None,
    ensures
        parts_in(pieces) is None,
    decreases pieces.len() - i,
{
    if i < pieces.len() {
        assert(pieces.take(i + 1).drop_last() =~= pieces.take(i));
        lemma_parts_in_prefix(pieces, i + 1);
    } else {
        assert(pieces.take(i) =~= pieces);
    }
}

fn key_taken(parts: &[Part], key: &str) -> (r: bool)
    ensures
        r == has_key(part_texts(parts@), key@),
{
    let mut i: usize = 0;
    while i < parts.len()
        invariant
            i <= parts.len(),
            forall|j: int| 0 <= j < i ==> (#[trigger] part_texts(parts@)[j]).key != key@,
        decreases parts.len() - i,
    {
        if same(parts[i].key.as_str(), key) {
            assert(part_texts(parts@)[i as int].key == key@);
            return true;
        }
        i = i + 1;
    }
    false
}

/// The rule's parts, and the `RRULE:` prefix as it was written (empty when the
/// rule came without one).
pub fn parse_parts(rrule: &str) -> (r: Result<(String, Vec<Part>), Unreadable>)
    ensures
        match r {
            Ok((prefix, parts)) => rule_parts(rrule@) == Some((prefix@, part_texts(parts@))),
            Err(_) => rule_parts(rrule@) is None,
        },
{
    let rule = chars_of(trim(rrule, Blank::Unicode).as_str());
    let mut prefix: String = String::new();
    let mut at: usize = 0;
    if rule.len() >= 6 {
        let head = string_of(&rule[0..6]);
        assert(head@ =~= rule@.take(6));
        if same(ascii_upper(head.as_str()).as_str(), "RRULE:") {
            prefix = head;
            at = 6;
        }
    }
    assert(prefix@ =~= rule_prefix(rule@));
    let body = string_of(&rule[at..rule.len()]);
    assert(body@ =~= rule@.skip(at as int));
    let pieces = split(body.as_str(), ';');
    let ghost all = texts(pieces@);
    let mut parts: Vec<Part> = Vec::new();
    let mut i: usize = 0;
    assert(all.take(0) =~= Seq::empty());
    assert(part_texts(parts@) =~= Seq::empty());
    while i < pieces.len()
        invariant
            i <= pieces.len(),
            all == texts(pieces@),
            all == split_on(trimmed(rrule@, Blank::Unicode).skip(prefix@.len() as int), ';'),
            prefix@ == rule_prefix(trimmed(rrule@, Blank::Unicode)),
            parts_in(all.take(i as int)) == Some(part_texts(parts@)),
        decreases pieces.len() - i,
    {
        let raw = pieces[i].as_str();
        proof {
            assert(all.take(i as int + 1).drop_last() =~= all.take(i as int));
            assert(all.take(i as int + 1).last() == raw@);
            lemma_trimmed_empty(raw@, Blank::Unicode);
            if parts_in(all.take(i as int + 1)) is None {
                lemma_parts_in_prefix(all, i as int + 1);
            }
        }
        let blank = trim(raw, Blank::Unicode);
        if !blank.as_str().is_empty() {
            match split_once(raw, '=') {
                None => {
                    return Err(Unreadable);
                },
                Some((name, value)) => {
                    let key = ascii_upper(trim(name.as_str(), Blank::Unicode).as_str());
                    if key_taken(parts.as_slice(), key.as_str()) {
                        return Err(Unreadable);
                    }
                    let part = Part {
                        key,
                        value: trim(value.as_str(), Blank::Unicode),
                        raw: pieces[i].clone(),
                    };
                    let ghost before = part_texts(parts@);
                    parts.push(part);
                    assert(part_texts(parts@) =~= before.push(part@));
                },
            }
        }
        i = i + 1;
    }
    assert(all.take(i as int) =~= all);
    Ok((prefix, parts))
}

/// The value of the part named `key`.
pub open spec fn value_of(parts: Seq<PartText>, key: Seq<char>) -> Option<Seq<char>>
    decreases parts.len(),
{
    if parts.len() == 0 {
        None
    } else {
        match value_of(parts.drop_last(), key) {
            Some(v) => Some(v),
            None => if parts.last().key == key {
                Some(parts.last().value)
            } else {
                None
            },
        }
    }
}

proof fn lemma_value_kept(parts: Seq<PartText>, key: Seq<char>, i: int)
    requires
        0 <= i <= parts.len(),
        value_of(parts.take(i), key) is Some,
    ensures
        value_of(parts, key) == value_of(parts.take(i), key),
    decreases parts.len() - i,
{
    if i < parts.len() {
        assert(parts.take(i + 1).drop_last() =~= parts.take(i));
        lemma_value_kept(parts, key, i + 1);
    } else {
        assert(parts.take(i) =~= parts);
    }
}

/// The value of `key`, if the rule has that part.
pub fn part<'a>(parts: &'a [Part], key: &str) -> (r: Option<&'a str>)
    ensures
        match r {
            Some(v) => value_of(part_texts(parts@), key@) == Some(v@),
            None => value_of(part_texts(parts@), key@) is None,
        },
{
    let ghost all = part_texts(parts@);
    let mut i: usize = 0;
    assert(all.take(0) =~= Seq::empty());
    while i < parts.len()
        invariant
            i <= parts.len(),
            all == part_texts(parts@),
            value_of(all.take(i as int), key@) is None,
        decreases parts.len() - i,
    {
        assert(all.take(i as int + 1).drop_last() =~= all.take(i as int));
        assert(all.take(i as int + 1).last() == parts@[i as int]@);
        if same(parts[i].key.as_str(), key) {
            proof {
                lemma_value_kept(all, key@, i as int + 1);
            }
            return Some(parts[i].value.as_str());
        }
        i = i + 1;
    }
    assert(all.take(i as int) =~= all);
    None
}

/// The unit a `FREQ` value names, read without regard to case.
pub open spec fn freq_in(value: Seq<char>) -> Option<Freq> {
    let name = uppercase(trimmed(value, Blank::Unicode));
    if name == "SECONDLY"@ {
        Some(Freq::Secondly)
    } else if name == "MINUTELY"@ {
        Some(Freq::Minutely)
    } else if name == "HOURLY"@ {
        Some(Freq::Hourly)
    } else if name == "DAILY"@ {
        Some(Freq::Daily)
    } else if name == "WEEKLY"@ {
        Some(Freq::Weekly)
    } else if name == "MONTHLY"@ {
        Some(Freq::Monthly)
    } else if name == "YEARLY"@ {
        Some(Freq::Yearly)
    } else {
        None
    }
}

pub fn parse_freq(value: &str) -> (r: Option<Freq>)
    ensures
        r == freq_in(value@),
{
    let name = ascii_upper(trim(value, Blank::Unicode).as_str());
    let name = name.as_str();
    if same(name, "SECONDLY") {
        Some(Freq::Secondly)
    } else if same(name, "MINUTELY") {
        Some(Freq::Minutely)
    } else if same(name, "HOURLY") {
        Some(Freq::Hourly)
    } else if same(name, "DAILY") {
        Some(Freq::Daily)
    } else if same(name, "WEEKLY") {
        Some(Freq::Weekly)
    } else if same(name, "MONTHLY") {
        Some(Freq::Monthly)
    } else if same(name, "YEARLY") {
        Some(Freq::Yearly)
    } else {
        None
    }
}

/// `INTERVAL`: 1 when the rule leaves it out, and nothing when it is not a
/// whole number of at least 1.
pub open spec fn interval_in(value: Option<Seq<char>>) -> Option<u32> {
    match value {
        None => Some(1),
        Some(v) => match unsigned_in(v) {
            Some(n) => if 1 <= n <= u32::MAX {
                Some(n as u32)
            } else {
                None
            },
            None => None,
        },
    }
}

pub fn parse_interval(value: Option<&str>) -> (r: Option<u32>)
    ensures
        r == interval_in(crate::text::optional_str(value)),
{
    match value {
        None => Some(1),
        Some(v) => match parse_unsigned(v, u32::MAX as u64) {
            Some(n) => if n >= 1 {
                Some(n as u32)
            } else {
                None
            },
            None => None,
        },
    }
}

/// The two letters of a weekday in `BYDAY` and `WKST`.
pub open spec fn weekday_letters(day: Weekday) -> Seq<char> {
    match day {
        Weekday::Monday => "MO"@,
        Weekday::Tuesday => "TU"@,
        Weekday::Wednesday => "WE"@,
        Weekday::Thursday => "TH"@,
        Weekday::Friday => "FR"@,
        Weekday::Saturday => "SA"@,
        Weekday::Sunday => "SU"@,
    }
}

/// The weekday two letters name.
pub open spec fn weekday_named(letters: Seq<char>) -> Option<Weekday> {
    if letters == "MO"@ {
        Some(Weekday::Monday)
    } else if letters == "TU"@ {
        Some(Weekday::Tuesday)
    } else if letters == "WE"@ {
        Some(Weekday::Wednesday)
    } else if letters == "TH"@ {
        Some(Weekday::Thursday)
    } else if letters == "FR"@ {
        Some(Weekday::Friday)
    } else if letters == "SA"@ {
        Some(Weekday::Saturday)
    } else if letters == "SU"@ {
        Some(Weekday::Sunday)
    } else {
        None
    }
}

pub fn weekday_of(letters: &str) -> (r: Option<Weekday>)
    ensures
        r == weekday_named(letters@),
{
    if same(letters, "MO") {
        Some(Weekday::Monday)
    } else if same(letters, "TU") {
        Some(Weekday::Tuesday)
    } else if same(letters, "WE") {
        Some(Weekday::Wednesday)
    } else if same(letters, "TH") {
        Some(Weekday::Thursday)
    } else if same(letters, "FR") {
        Some(Weekday::Friday)
    } else if same(letters, "SA") {
        Some(Weekday::Saturday)
    } else if same(letters, "SU") {
        Some(Weekday::Sunday)
    } else {
        None
    }
}

pub fn weekday_token(day: Weekday) -> (r: &'static str)
    ensures
        r@ == weekday_letters(day),
{
    match day {
        Weekday::Monday => "MO",
        Weekday::Tuesday => "TU",
        Weekday::Wednesday => "WE",
        Weekday::Thursday => "TH",
        Weekday::Friday => "FR",
        Weekday::Saturday => "SA",
        Weekday::Sunday => "SU",
    }
}

/// The letters of a weekday name that day.
pub proof fn weekday_letters_name_their_day(day: Weekday)
    ensures
        weekday_named(weekday_letters(day)) == Some(day),
        weekday_letters(day).len() == 2,
        uppercase(weekday_letters(day)) == weekday_letters(day),
        forall|i: int|
            0 <= i < 2 ==> 'A' <= #[trigger] weekday_letters(day)[i] && weekday_letters(day)[i] <= 'Z',
{
    reveal_strlit("MO");
    reveal_strlit("TU");
    reveal_strlit("WE");
    reveal_strlit("TH");
    reveal_strlit("FR");
    reveal_strlit("SA");
    reveal_strlit("SU");
    let w = weekday_letters(day);
    assert(weekday_letters(Weekday::Monday)[0] == 'M' && weekday_letters(Weekday::Monday)[1]
        == 'O');
    assert(weekday_letters(Weekday::Tuesday)[0] == 'T' && weekday_letters(Weekday::Tuesday)[1]
        == 'U');
    assert(weekday_letters(Weekday::Wednesday)[0] == 'W' && weekday_letters(Weekday::Wednesday)[1]
        == 'E');
    assert(weekday_letters(Weekday::Thursday)[0] == 'T' && weekday_letters(Weekday::Thursday)[1]
        == 'H');
    assert(weekday_letters(Weekday::Friday)[0] == 'F' && weekday_letters(Weekday::Friday)[1]
        == 'R');
    assert(weekday_letters(Weekday::Saturday)[0] == 'S' && weekday_letters(Weekday::Saturday)[1]
        == 'A');
    assert(weekday_letters(Weekday::Sunday)[0] == 'S' && weekday_letters(Weekday::Sunday)[1]
        == 'U');
    assert(uppercase(w) =~= w);
}

/// Every character is one of ASCII.
pub open spec fn is_ascii_text(s: Seq<char>) -> bool {
    forall|i: int| 0 <= i < s.len() ==> (#[trigger] s[i]) <= '\u{7F}'
}

pub fn ascii_text(s: &[char]) -> (r: bool)
    ensures
        r == is_ascii_text(s@),
{
    let mut i: usize = 0;
    while i < s.len()
        invariant
            i <= s.len(),
            forall|j: int| 0 <= j < i ==> (#[trigger] s@[j]) <= '\u{7F}',
        decreases s.len() - i,
    {
        if s[i] > '\u{7F}' {
            return false;
        }
        i = i + 1;
    }
    true
}

/// One `BYDAY` token: its ordinal, if it has one (`2SU` is the second Sunday,
/// `-1FR` the last Friday), and the weekday.
pub open spec fn weekday_token_in(token: Seq<char>) -> Option<(Option<i8>, Weekday)> {
    let t = uppercase(trimmed(token, Blank::Unicode));
    if !is_ascii_text(t) || t.len() < 2 {
        None
    } else {
        match weekday_named(t.skip(t.len() - 2)) {
            None => None,
            Some(day) => {
                let ordinal = t.take(t.len() - 2);
                if ordinal.len() == 0 {
                    Some((None, day))
                } else {
                    match signed_in(ordinal) {
                        Some(n) => if i8::MIN <= n <= i8::MAX && n != 0 {
                            Some((Some(n as i8), day))
                        } else {
                            None
                        },
                        None => None,
                    }
                }
            },
        }
    }
}

pub fn parse_weekday_token(token: &str) -> (r: Option<(Option<i8>, Weekday)>)
    ensures
        r == weekday_token_in(token@),
{
    let t = chars_of(ascii_upper(trim(token, Blank::Unicode).as_str()).as_str());
    if !ascii_text(t.as_slice()) || t.len() < 2 {
        return None;
    }
    let cut: usize = t.len() - 2;
    let letters = string_of(&t[cut..t.len()]);
    assert(letters@ =~= t@.skip(cut as int));
    let ordinal = string_of(&t[0..cut]);
    assert(ordinal@ =~= t@.take(cut as int));
    match weekday_of(letters.as_str()) {
        None => None,
        Some(day) => {
            if cut == 0 {
                return Some((None, day));
            }
            match parse_signed(ordinal.as_str(), -128, 127) {
                Some(n) => if n != 0 {
                    Some((Some(n as i8), day))
                } else {
                    None
                },
                None => None,
            }
        },
    }
}

/// An `UNTIL` value is a UTC date-time (`YYYYMMDDTHHMMSSZ`) rather than a date
/// or a floating time.
pub open spec fn utc_date_time(value: Seq<char>) -> bool {
    &&& value.len() == 16
    &&& forall|i: int| (0 <= i < 8 || 9 <= i < 15) ==> is_digit(#[trigger] value[i])
    &&& upper(value[8]) == 'T'
    &&& upper(value[15]) == 'Z'
}

pub fn is_utc_date_time(value: &str) -> (r: bool)
    ensures
        r == utc_date_time(value@),
{
    let s = chars_of(value);
    if s.len() != 16 {
        return false;
    }
    let mut i: usize = 0;
    while i < 15
        invariant
            s@ == value@,
            s@.len() == 16,
            i <= 15,
            forall|j: int| (0 <= j < 8 || 9 <= j < 15) && j < i ==> is_digit(#[trigger] s@[j]),
        decreases 15 - i,
    {
        if i != 8 && !digit_char(s[i]) {
            assert(!is_digit(s@[i as int]));
            return false;
        }
        i = i + 1;
    }
    crate::text::upper_char(s[8]) == 'T' && crate::text::upper_char(s[15]) == 'Z'
}

// ---------------------------------------------------------------------------
// What a rule is made of
// ---------------------------------------------------------------------------

/// A piece is a part: a name, the first `=`, and a value. The name counts without
/// the white space round it and in upper case, the value without the white space
/// round it.
pub open spec fn is_part(piece: Seq<char>, part: PartText) -> bool {
    exists|at: int|
        0 <= at < piece.len() && #[trigger] piece[at] == '=' && (forall|j: int|
            0 <= j < at ==> #[trigger] piece[j] != '=') && part.key == uppercase(
            trimmed(piece.take(at), Blank::Unicode),
        ) && part.value == trimmed(piece.skip(at + 1), Blank::Unicode) && part.raw == piece
}

proof fn lemma_part(piece: Seq<char>, part: PartText)
    ensures
        is_part(piece, part) <==> {
            &&& split_first(piece, '=') is Some
            &&& part.raw == piece
            &&& part.key == uppercase(
                trimmed(split_first(piece, '=').unwrap().0, Blank::Unicode),
            )
            &&& part.value == trimmed(split_first(piece, '=').unwrap().1, Blank::Unicode)
        },
{
    lemma_first_index(piece, '=');
    if is_part(piece, part) {
        let at = choose|at: int|
            0 <= at < piece.len() && #[trigger] piece[at] == '=' && (forall|j: int|
                0 <= j < at ==> #[trigger] piece[j] != '=') && part.key == uppercase(
                trimmed(piece.take(at), Blank::Unicode),
            ) && part.value == trimmed(piece.skip(at + 1), Blank::Unicode) && part.raw == piece;
        let first = first_index(piece, '=')->0;
        assert(piece[first] == '=');
        if first < at {
            assert(piece[first] != '=');
        }
        if at < first {
            assert(piece[at] != '=');
        }
    }
}

/// The pieces of a rule are its parts, one for one and in order, the blank ones
/// left out, and no name comes twice.
pub proof fn the_parts_are_the_pieces(pieces: Seq<Seq<char>>) -> (at: Seq<int>)
    ensures
        parts_in(pieces) matches Some(parts) ==> {
            &&& at.len() == parts.len()
            &&& forall|k: int|
                0 <= k < parts.len() ==> 0 <= #[trigger] at[k] < pieces.len() && !is_blank(
                    pieces[at[k]],
                    Blank::Unicode,
                ) && is_part(pieces[at[k]], parts[k])
            &&& forall|j: int, k: int|
                0 <= j < k < parts.len() ==> #[trigger] at[j] < #[trigger] at[k]
            &&& forall|i: int|
                0 <= i < pieces.len() && !is_blank(#[trigger] pieces[i], Blank::Unicode)
                    ==> at.contains(i)
            &&& forall|j: int, k: int|
                0 <= j < k < parts.len() ==> (#[trigger] parts[j]).key != (
                #[trigger] parts[k]).key
        },
    decreases pieces.len(),
{
    if pieces.len() == 0 || parts_in(pieces) is None {
        Seq::empty()
    } else {
        let front = pieces.drop_last();
        let before = the_parts_are_the_pieces(front);
        let known = parts_in(front)->0;
        let parts = parts_in(pieces)->0;
        let raw = pieces.last();
        let last = pieces.len() - 1;
        assert(pieces[last] == raw);
        let at = if is_blank(raw, Blank::Unicode) {
            before
        } else {
            before.push(last)
        };
        if !is_blank(raw, Blank::Unicode) {
            lemma_part(raw, parts.last());
            assert(parts =~= known.push(parts.last()));
            assert(at[before.len() as int] == last);
        }
        assert forall|k: int| 0 <= k < parts.len() implies 0 <= #[trigger] at[k] < pieces.len()
            && !is_blank(pieces[at[k]], Blank::Unicode) && is_part(pieces[at[k]], parts[k]) by {
            if k < known.len() {
                assert(at[k] == before[k]);
                assert(pieces[at[k]] == front[before[k]]);
                assert(parts[k] == known[k]);
            }
        }
        assert forall|j: int, k: int| 0 <= j < k < parts.len() implies #[trigger] at[j]
            < #[trigger] at[k] by {
            assert(at[j] == before[j]);
            if k < known.len() {
                assert(at[k] == before[k]);
            }
        }
        assert forall|i: int|
            0 <= i < pieces.len() && !is_blank(#[trigger] pieces[i], Blank::Unicode) implies
            at.contains(i) by {
            if i < front.len() {
                assert(front[i] == pieces[i]);
                assert(before.contains(i));
                let k = choose|k: int| 0 <= k < before.len() && before[k] == i;
                assert(at[k] == i);
            } else {
                assert(at[before.len() as int] == i);
            }
        }
        assert forall|j: int, k: int| 0 <= j < k < parts.len() implies (#[trigger] parts[j]).key
            != (#[trigger] parts[k]).key by {
            assert(parts[j] == known[j]);
            if k < known.len() {
                assert(parts[k] == known[k]);
            } else {
                assert(!has_key(known, parts[k].key));
            }
        }
        at
    }
}

/// What a piece names, where it has an `=`.
pub open spec fn name_of(piece: Seq<char>) -> Seq<char> {
    match split_first(piece, '=') {
        Some((name, _)) => uppercase(trimmed(name, Blank::Unicode)),
        None => Seq::empty(),
    }
}

/// A rule cannot be read exactly where some piece that is not blank has no `=`,
/// or two of them name the same.
pub proof fn when_a_rule_cannot_be_read(pieces: Seq<Seq<char>>)
    ensures
        parts_in(pieces) is None <==> {
            ||| exists|i: int|
                0 <= i < pieces.len() && !is_blank(#[trigger] pieces[i], Blank::Unicode)
                    && !pieces[i].contains('=')
            ||| exists|i: int, j: int|
                0 <= i < j < pieces.len() && !is_blank(#[trigger] pieces[i], Blank::Unicode)
                    && !is_blank(#[trigger] pieces[j], Blank::Unicode) && name_of(pieces[i])
                    == name_of(pieces[j])
        },
    decreases pieces.len(),
{
    if pieces.len() > 0 {
        let front = pieces.drop_last();
        let last = pieces.len() - 1;
        let raw = pieces.last();
        assert(pieces[last] == raw);
        when_a_rule_cannot_be_read(front);
        lemma_first_index(raw, '=');
        assert(raw.contains('=') <==> split_first(raw, '=') is Some) by {
            if raw.contains('=') {
                let k = choose|k: int| 0 <= k < raw.len() && raw[k] == '=';
                assert(raw[k] == '=');
            }
        }
        if parts_in(front) is None {
            if exists|i: int|
                0 <= i < front.len() && !is_blank(#[trigger] front[i], Blank::Unicode)
                    && !front[i].contains('=') {
                let i = choose|i: int|
                    0 <= i < front.len() && !is_blank(#[trigger] front[i], Blank::Unicode)
                        && !front[i].contains('=');
                assert(pieces[i] == front[i]);
            } else {
                let (i, j) = choose|i: int, j: int|
                    0 <= i < j < front.len() && !is_blank(#[trigger] front[i], Blank::Unicode)
                        && !is_blank(#[trigger] front[j], Blank::Unicode) && name_of(front[i])
                        == name_of(front[j]);
                assert(pieces[i] == front[i] && pieces[j] == front[j]);
            }
        } else {
            let known = parts_in(front)->0;
            let at = the_parts_are_the_pieces(front);
            if !is_blank(raw, Blank::Unicode) && split_first(raw, '=') is Some {
                let key = name_of(raw);
                if has_key(known, key) {
                    let k = choose|k: int| 0 <= k < known.len() && (#[trigger] known[k]).key == key;
                    let i = at[k];
                    lemma_part(front[i], known[k]);
                    assert(pieces[i] == front[i]);
                    assert(!is_blank(pieces[i], Blank::Unicode) && !is_blank(
                        pieces[last],
                        Blank::Unicode,
                    ) && name_of(pieces[i]) == name_of(pieces[last]));
                }
            }
            if parts_in(pieces) is Some {
                assert forall|i: int|
                    0 <= i < pieces.len() && !is_blank(
                        #[trigger] pieces[i],
                        Blank::Unicode,
                    ) implies pieces[i].contains('=') by {
                    if i < front.len() {
                        assert(front[i] == pieces[i]);
                    }
                }
                assert forall|i: int, j: int|
                    0 <= i < j < pieces.len() && !is_blank(#[trigger] pieces[i], Blank::Unicode)
                        && !is_blank(#[trigger] pieces[j], Blank::Unicode) implies name_of(
                    pieces[i],
                ) != name_of(pieces[j]) by {
                    assert(front[i] == pieces[i]);
                    if j < front.len() {
                        assert(front[j] == pieces[j]);
                    } else {
                        assert(at.contains(i));
                        let k = choose|k: int| 0 <= k < at.len() && at[k] == i;
                        assert(is_part(front[at[k]], known[k]));
                        lemma_part(front[i], known[k]);
                        assert(!has_key(known, name_of(raw)));
                        assert(known[k].key != name_of(raw));
                    }
                }
            }
        }
    }
}

/// The value of a key is that of the first part so named, and there is none
/// exactly where no part is.
pub proof fn a_value_is_that_of_its_part(parts: Seq<PartText>, key: Seq<char>)
    ensures
        match value_of(parts, key) {
            Some(value) => exists|k: int|
                0 <= k < parts.len() && (#[trigger] parts[k]).key == key && parts[k].value == value
                    && forall|j: int| 0 <= j < k ==> (#[trigger] parts[j]).key != key,
            None => forall|k: int| 0 <= k < parts.len() ==> (#[trigger] parts[k]).key != key,
        },
    decreases parts.len(),
{
    if parts.len() > 0 {
        let front = parts.drop_last();
        a_value_is_that_of_its_part(front, key);
        assert(parts[parts.len() - 1] == parts.last());
        match value_of(front, key) {
            Some(value) => {
                let k = choose|k: int|
                    0 <= k < front.len() && (#[trigger] front[k]).key == key && front[k].value
                        == value && forall|j: int|
                        0 <= j < k ==> (#[trigger] front[j]).key != key;
                assert(parts[k] == front[k]);
                assert forall|j: int| 0 <= j < k implies (#[trigger] parts[j]).key != key by {
                    assert(parts[j] == front[j]);
                }
            },
            None => {
                assert forall|j: int| 0 <= j < front.len() implies (#[trigger] parts[j]).key
                    != key by {
                    assert(parts[j] == front[j]);
                }
            },
        }
    }
}

/// The word of a frequency.
pub open spec fn word_of(freq: Freq) -> Seq<char> {
    match freq {
        Freq::Secondly => "SECONDLY"@,
        Freq::Minutely => "MINUTELY"@,
        Freq::Hourly => "HOURLY"@,
        Freq::Daily => "DAILY"@,
        Freq::Weekly => "WEEKLY"@,
        Freq::Monthly => "MONTHLY"@,
        Freq::Yearly => "YEARLY"@,
    }
}

/// A frequency is named by its word, in any case and with white space round it,
/// and by nothing else.
pub proof fn a_frequency_is_named_by_its_word(value: Seq<char>, freq: Freq)
    ensures
        freq_in(value) == Some(freq) <==> uppercase(trimmed(value, Blank::Unicode)) == word_of(
            freq,
        ),
{
    reveal_strlit("SECONDLY");
    reveal_strlit("MINUTELY");
    reveal_strlit("HOURLY");
    reveal_strlit("DAILY");
    reveal_strlit("WEEKLY");
    reveal_strlit("MONTHLY");
    reveal_strlit("YEARLY");
    assert("SECONDLY"@[0] == 'S' && "MINUTELY"@[0] == 'M' && "HOURLY"@[0] == 'H');
    assert("DAILY"@[0] == 'D' && "WEEKLY"@[0] == 'W' && "MONTHLY"@[0] == 'M');
    assert("YEARLY"@[0] == 'Y' && "MINUTELY"@[1] == 'I' && "MONTHLY"@[1] == 'O');
}

/// An interval is the whole number written, at least 1 and of 32 bits, and 1
/// where none is written.
pub proof fn an_interval_is_the_number_written(n: nat)
    ensures
        interval_in(None) == Some(1u32),
        interval_in(Some(decimal(n))) is Some <==> 1 <= n <= u32::MAX,
        1 <= n <= u32::MAX ==> interval_in(Some(decimal(n))) == Some(n as u32),
{
    lemma_decimal_reads_back(n);
}

/// A weekday is read from its letters, with the number written before it: the
/// number itself, or less than nothing where a minus stands before it.
pub proof fn a_weekday_token_is_read_as_written(n: nat, day: Weekday)
    requires
        1 <= n <= 127,
    ensures
        weekday_token_in(weekday_letters(day)) == Some((None::<i8>, day)),
        weekday_token_in(decimal(n) + weekday_letters(day)) == Some((Some(n as i8), day)),
        weekday_token_in(seq!['-'] + decimal(n) + weekday_letters(day)) == Some(
            (Some((-(n as int)) as i8), day),
        ),
{
    let letters = weekday_letters(day);
    weekday_letters_name_their_day(day);
    lemma_decimal_reads_back(n);
    let none: Seq<char> = Seq::empty();
    assert(none + letters =~= letters);
    lemma_token(none, day);
    lemma_token(decimal(n), day);
    let minus = seq!['-'] + decimal(n);
    assert(minus.skip(1) =~= decimal(n));
    assert forall|i: int| 0 <= i < minus.len() implies is_digit(#[trigger] minus[i]) || minus[i]
        == '-' by {
        if i > 0 {
            assert(minus[i] == decimal(n)[i - 1]);
        }
    }
    lemma_token(minus, day);
    assert(is_digit(decimal(n)[0]));
}

proof fn lemma_token(ordinal: Seq<char>, day: Weekday)
    requires
        forall|i: int|
            0 <= i < ordinal.len() ==> is_digit(#[trigger] ordinal[i]) || ordinal[i] == '-',
    ensures
        weekday_token_in(ordinal + weekday_letters(day)) == if ordinal.len() == 0 {
            Some((None::<i8>, day))
        } else {
            match signed_in(ordinal) {
                Some(n) => if i8::MIN <= n <= i8::MAX && n != 0 {
                    Some((Some(n as i8), day))
                } else {
                    None
                },
                None => None,
            }
        },
{
    let letters = weekday_letters(day);
    let token = ordinal + letters;
    weekday_letters_name_their_day(day);
    assert forall|i: int| 0 <= i < token.len() implies (is_digit(#[trigger] token[i])
        || token[i] == '-' || ('A' <= token[i] && token[i] <= 'Z')) by {
        if i < ordinal.len() {
            assert(token[i] == ordinal[i]);
        } else {
            assert(token[i] == letters[i - ordinal.len()]);
        }
    }
    assert(token.last() == letters[1]);
    assert(!Blank::Unicode.holds(token[0]) && !Blank::Unicode.holds(token.last()));
    lemma_trimmed_same(token, Blank::Unicode);
    assert(uppercase(token) =~= token);
    assert(is_ascii_text(token));
    assert(token.skip(token.len() - 2) =~= letters);
    assert(token.take(token.len() - 2) =~= ordinal);
}

} // verus!
