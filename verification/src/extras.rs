//! "Aperio Extras": a forward-compatible bag of task fields that have no native
//! home on an external provider.
//!
//! On a SHARED list the only channel to a collaborator is the provider itself,
//! so these fields ride along inside a provider field, as a visible managed
//! block in a plain-text description.
//!
//! The block is appended to the description with a bilingual "don't edit"
//! warning and a base64 payload. Base64 keeps the JSON safe from a rich-text
//! editor's HTML escaping. On read the block is stripped back out so the
//! user-facing description stays clean; a missing or malformed block degrades
//! to "no extras", never an error.
//!
//! [`embed`] always strips any existing block before appending, so it is
//! idempotent AND is the "defensive merge": pass the freshly-read current
//! description and it replaces only this block, preserving the rest.

use base64::Engine;
use vstd::prelude::*;

use crate::civil::{iso_text, optional_day, parse_day, read_day, write_iso, Date, Ymd};
use crate::envelope::{
    a_written_envelope_is_found, envelope_of, is_json, is_one_part, optional_bytes, short,
    short_form, shorten, wrap, ONE,
};
use crate::text::{
    all_digits, ascii_lower, chars_of, digit_char, first_index, has_plain_breaks, has_prefix,
    has_text, holds_text, is_digit, join, joined, lemma_first_index, lemma_joined_split,
    lemma_last_piece, lemma_lines, lemma_precedes_total, lemma_precedes_transitive,
    lemma_split_concat, lemma_split_whole, lemma_texts_push, lemma_trimmed_empty,
    lemma_trimmed_ends, lemma_trimmed_same, lines, lines_of, lowercase, optional_str, optional_text,
    precedes, same, split_first, split_on, split_once, stands_at, starts_with, string_of,
    text_before, texts, trim, trimmed, trimmed_back, trimmed_front, Blank,
};
use crate::types::{optional_rule, RecurrenceAnchor, RecurrencePlacement, TaskRecurrence, TaskRule};

verus! {

// ---------------------------------------------------------------------------
// JSON and base64
// ---------------------------------------------------------------------------

/// The JSON value a text holds, written without white space: what
/// `serde_json::from_str::<Value>` reads and `Value::to_string` writes.
pub uninterp spec fn json_in(text: Seq<char>) -> Option<Seq<char>>;

/// Reads a JSON value: `serde_json::from_str::<Value>`, handed on as the text
/// `Value::to_string` writes, which is JSON again. Read once more it gives the
/// same text, unless it holds a number with a fraction or an exponent: nothing
/// is said of how such a number is rounded.
#[verifier::external_body]
fn read_json(text: &str) -> (r: Option<String>)
    ensures
        optional_text(r) == json_in(text@),
        r matches Some(json) ==> is_written(json@),
{
    let value: serde_json::Value = serde_json::from_str(text).ok()?;
    Some(value.to_string())
}

/// A text as a JSON string: what `Value::to_string` writes for a string.
pub uninterp spec fn quoted(text: Seq<char>) -> Seq<char>;

/// Writes a text as a JSON string: `Value::String`, written by
/// `Value::to_string`. It is a JSON value in its compact form, and the text is
/// read back from it.
#[verifier::external_body]
fn quote(text: &str) -> (r: String)
    ensures
        r@ == quoted(text@),
        json_in(r@) == Some(r@),
        string_in(r@) == Some(text@),
{
    serde_json::Value::String(text.to_owned()).to_string()
}

/// The text a JSON value is, where it is a string: what
/// `serde_json::from_str::<String>` reads.
pub uninterp spec fn string_in(json: Seq<char>) -> Option<Seq<char>>;

/// Reads a JSON string: `serde_json::from_str::<String>`.
#[verifier::external_body]
fn unquote(json: &str) -> (r: Option<String>)
    ensures
        optional_text(r) == string_in(json@),
{
    serde_json::from_str::<String>(json).ok()
}

/// The members of the object that is the second item of a JSON list, the first
/// being a whole number of 32 bits, each value as the text `Value::to_string`
/// writes: what
/// `serde_json::from_slice::<(u32, serde_json::Map<String, Value>)>` reads.
pub uninterp spec fn pair_in(bytes: Seq<u8>) -> Option<Map<Seq<char>, Seq<char>>>;

/// Reads an envelope in its short form: `serde_json::from_slice` into a `u32` and
/// a `serde_json::Map`, whose members come out in the order of their keys, each
/// once, each value as the text `Value::to_string` writes, which is JSON again,
/// and the same text when it is read once more, unless it holds a number with a
/// fraction or an exponent.
#[verifier::external_body]
fn read_pair(bytes: &[u8]) -> (r: Option<Vec<ExtraField>>)
    ensures
        match r {
            Some(fields) => pair_in(bytes@) == Some(bag(fields@)) && is_sorted(fields@)
                && all_json(fields@),
            None => pair_in(bytes@) is None,
        },
{
    let pair: (u32, serde_json::Map<String, serde_json::Value>) =
        serde_json::from_slice(bytes).ok()?;
    Some(pair.1.into_iter().map(|(key, v)| ExtraField { key, json: v.to_string() }).collect())
}

/// A JSON object with these members, in the order of their keys and without
/// white space: what `serde_json::to_vec` writes for a `serde_json::Map`.
pub uninterp spec fn object_text(fields: Map<Seq<char>, Seq<char>>) -> Seq<u8>;

/// Writes a JSON object: `serde_json::to_vec` of a `serde_json::Map` with these
/// members. It closes what it opens and has no white space between its tokens,
/// and it is JSON in a versioned envelope too. Where no value nests so deeply
/// that it passes the 127 levels a reader follows once it stands in an object and
/// an envelope, the envelope is read; and where no value holds a number with a
/// fraction or an exponent either, the members are read back from it.
#[verifier::external_body]
fn write_object(fields: &[ExtraField]) -> (r: Vec<u8>)
    requires
        all_json(fields@),
    ensures
        r@ == object_text(bag(fields@)),
        is_one_part(r@),
        is_json(envelope_of(r@)),
        is_shallow(bag(fields@)) ==> pair_in(short(seq![ONE], r@)) is Some,
        is_settled(bag(fields@)) ==> pair_in(short(seq![ONE], r@)) == Some(bag(fields@)),
{
    let map: serde_json::Map<String, serde_json::Value> = fields.iter().map(
        |f| (f.key.clone(), serde_json::from_str(&f.json).unwrap()),
    ).collect();
    serde_json::to_vec(&map).unwrap()
}

/// The base64 of bytes.
pub uninterp spec fn base64_of(bytes: Seq<u8>) -> Seq<char>;

/// The characters of the standard base64 alphabet, and its padding.
pub open spec fn is_base64(c: char) -> bool {
    'A' <= c <= 'Z' || 'a' <= c <= 'z' || '0' <= c <= '9' || c == '+' || c == '/' || c == '='
}

/// Writes bytes in base64: `encode` of
/// `base64::engine::general_purpose::STANDARD`. The bytes are read back from it,
/// and it is made of the standard alphabet and its padding.
#[verifier::external_body]
fn encode(bytes: &[u8]) -> (r: String)
    ensures
        r@ == base64_of(bytes@),
        base64_in(r@) == Some(bytes@),
        forall|i: int| 0 <= i < r@.len() ==> is_base64(#[trigger] r@[i]),
        bytes@.len() > 0 ==> r@.len() > 0,
{
    base64::engine::general_purpose::STANDARD.encode(bytes)
}

/// The bytes a base64 text holds.
pub uninterp spec fn base64_in(text: Seq<char>) -> Option<Seq<u8>>;

/// Reads base64: `decode` of `base64::engine::general_purpose::STANDARD`.
#[verifier::external_body]
fn decode(text: &str) -> (r: Option<Vec<u8>>)
    ensures
        optional_bytes(r) == base64_in(text@),
{
    base64::engine::general_purpose::STANDARD.decode(text).ok()
}

// ---------------------------------------------------------------------------
// The bag
// ---------------------------------------------------------------------------

/// A JSON value, held as its text.
#[derive(Debug, PartialEq, Eq)]
pub struct JsonValue {
    text: String,
}

impl View for JsonValue {
    type V = Seq<char>;

    closed spec fn view(&self) -> Seq<char> {
        self.text@
    }
}

impl JsonValue {
    #[verifier::type_invariant]
    pub(crate) closed spec fn is_json(self) -> bool {
        is_written(self.text@)
    }

    /// The JSON value a text holds, where it is JSON.
    pub fn parse(text: &str) -> (r: Option<JsonValue>)
        ensures
            match r {
                Some(value) => json_in(text@) == Some(value@) && is_written(value@),
                None => json_in(text@) is None,
            },
    {
        match read_json(text) {
            Some(json) => Some(JsonValue { text: json }),
            None => None,
        }
    }

    /// A JSON string. It is written in its compact form.
    pub fn string(text: &str) -> (r: JsonValue)
        ensures
            r@ == quoted(text@),
            json_in(r@) == Some(r@),
            string_in(r@) == Some(text@),
    {
        JsonValue { text: quote(text) }
    }

    /// The text of a JSON string; nothing for any other value.
    pub fn as_str(&self) -> (r: Option<String>)
        ensures
            optional_text(r) == string_in(self@),
    {
        unquote(self.text.as_str())
    }

    /// The value as JSON.
    pub fn text(&self) -> (r: &str)
        ensures
            r@ == self@,
    {
        self.text.as_str()
    }
}

/// A member of the bag.
#[derive(Debug, Clone, PartialEq, Eq)]
pub struct ExtraField {
    pub key: String,
    /// The value, as JSON.
    pub json: String,
}

/// What a list of members holds.
pub open spec fn bag(fields: Seq<ExtraField>) -> Map<Seq<char>, Seq<char>>
    decreases fields.len(),
{
    if fields.len() == 0 {
        Map::empty()
    } else {
        bag(fields.drop_last()).insert(fields.last().key@, fields.last().json@)
    }
}

/// The members stand in the order of their keys, each key once.
pub open spec fn is_sorted(fields: Seq<ExtraField>) -> bool {
    forall|i: int, j: int|
        0 <= i < j < fields.len() ==> precedes(
            (#[trigger] fields[i]).key@,
            (#[trigger] fields[j]).key@,
        )
}

/// How far a JSON text has been gone through.
pub struct JsonScan {
    /// How many arrays and objects are open.
    pub depth: int,
    /// The most that were open at once.
    pub deepest: int,
    pub in_string: bool,
    /// Whether the character before is a backslash that escapes the next one.
    pub escaped: bool,
    /// Whether a number with a fraction or an exponent was met.
    pub fraction: bool,
}

/// A JSON text gone through, character by character.
pub open spec fn scanned_json(json: Seq<char>) -> JsonScan
    decreases json.len(),
{
    if json.len() == 0 {
        JsonScan { depth: 0, deepest: 0, in_string: false, escaped: false, fraction: false }
    } else {
        let before = scanned_json(json.drop_last());
        let c = json.last();
        if before.in_string {
            JsonScan {
                in_string: before.escaped || c != '"',
                escaped: !before.escaped && c == '\\',
                ..before
            }
        } else if c == '"' {
            JsonScan { in_string: true, ..before }
        } else if c == '[' || c == '{' {
            JsonScan {
                depth: before.depth + 1,
                deepest: if before.depth + 1 > before.deepest {
                    before.depth + 1
                } else {
                    before.deepest
                },
                ..before
            }
        } else if c == ']' || c == '}' {
            JsonScan { depth: before.depth - 1, ..before }
        } else if c == '.' || (c == 'e' && json.len() > 1 && is_digit(json[json.len() - 2])) {
            JsonScan { fraction: true, ..before }
        } else {
            before
        }
    }
}

/// A value as it is written after it was read: JSON, and in the form it is read
/// in once more, unless it holds a number with a fraction or an exponent.
pub open spec fn is_written(json: Seq<char>) -> bool {
    &&& json_in(json) is Some
    &&& string_in(json) is Some || !scanned_json(json).fraction ==> json_in(json) == Some(json)
}

/// Every value is as it is written after it was read.
pub open spec fn all_json(fields: Seq<ExtraField>) -> bool {
    forall|i: int| 0 <= i < fields.len() ==> is_written((#[trigger] fields[i]).json@)
}

/// A string, or a value that nests no deeper than a reader of the envelope
/// follows.
pub open spec fn is_shallow_json(json: Seq<char>) -> bool {
    string_in(json) is Some || scanned_json(json).deepest <= 125
}

/// A string, or a value whose numbers are whole and which nests no deeper than a
/// reader of the envelope follows.
pub open spec fn is_plain_json(json: Seq<char>) -> bool {
    string_in(json) is Some || (!scanned_json(json).fraction && scanned_json(json).deepest <= 125)
}

/// Every value is one that a reader of the envelope follows to its end.
pub open spec fn is_shallow(fields: Map<Seq<char>, Seq<char>>) -> bool {
    forall|key: Seq<char>| #[trigger] fields.contains_key(key) ==> is_shallow_json(fields[key])
}

/// Every value is one that comes back from the envelope as it went in.
pub open spec fn is_settled(fields: Map<Seq<char>, Seq<char>>) -> bool {
    forall|key: Seq<char>| #[trigger] fields.contains_key(key) ==> is_plain_json(fields[key])
}

proof fn lemma_bag(fields: Seq<ExtraField>)
    requires
        is_sorted(fields),
    ensures
        forall|i: int|
            0 <= i < fields.len() ==> bag(fields).contains_key((#[trigger] fields[i]).key@)
                && bag(fields)[fields[i].key@] == fields[i].json@,
        forall|key: Seq<char>| #[trigger]
            bag(fields).contains_key(key) ==> exists|i: int|
                0 <= i < fields.len() && (#[trigger] fields[i]).key@ == key,
    decreases fields.len(),
{
    if fields.len() > 0 {
        let front = fields.drop_last();
        lemma_bag(front);
        assert forall|i: int| 0 <= i < fields.len() implies bag(fields).contains_key(
            (#[trigger] fields[i]).key@,
        ) && bag(fields)[fields[i].key@] == fields[i].json@ by {
            if i < front.len() {
                assert(front[i] == fields[i]);
                lemma_precedes_total(fields[i].key@, fields.last().key@);
                assert(fields[fields.len() - 1] == fields.last());
            }
        }
        assert forall|key: Seq<char>| #[trigger] bag(fields).contains_key(key) implies exists|
            i: int,
        |
            0 <= i < fields.len() && (#[trigger] fields[i]).key@ == key by {
            if key == fields.last().key@ {
                assert(fields[fields.len() - 1].key@ == key);
            } else {
                assert(bag(front).contains_key(key));
                let i = choose|i: int| 0 <= i < front.len() && (#[trigger] front[i]).key@ == key;
                assert(fields[i].key@ == key);
            }
        }
    }
}

/// Two sorted lists that give every key the same value hold the same.
proof fn lemma_same_bag(
    fields: Seq<ExtraField>,
    wanted: Map<Seq<char>, Seq<char>>,
)
    requires
        is_sorted(fields),
        forall|i: int|
            0 <= i < fields.len() ==> wanted.contains_key((#[trigger] fields[i]).key@)
                && wanted[fields[i].key@] == fields[i].json@,
        forall|key: Seq<char>| #[trigger]
            wanted.contains_key(key) ==> exists|i: int|
                0 <= i < fields.len() && (#[trigger] fields[i]).key@ == key,
    ensures
        bag(fields) == wanted,
{
    lemma_bag(fields);
    assert(bag(fields) =~= wanted) by {
        assert forall|key: Seq<char>| wanted.contains_key(key) implies bag(fields).contains_key(key)
            && bag(fields)[key] == wanted[key] by {
            let i = choose|i: int| 0 <= i < fields.len() && (#[trigger] fields[i]).key@ == key;
            assert(bag(fields).contains_key(fields[i].key@));
        }
        assert forall|key: Seq<char>| #[trigger] bag(fields).contains_key(key) implies
            wanted.contains_key(key) by {
            let i = choose|i: int| 0 <= i < fields.len() && (#[trigger] fields[i]).key@ == key;
            assert(wanted.contains_key(fields[i].key@));
        }
    }
}

/// Forward-compatible bag of task fields. Keys are stable identifiers (e.g.
/// `recurrence`, `resurface_date`, `series_id`); values are arbitrary JSON so
/// the schema can grow without a format break. An empty bag is never written as
/// a block.
#[derive(Debug, PartialEq, Eq)]
pub struct AperioExtras {
    fields: Vec<ExtraField>,
}

impl View for AperioExtras {
    type V = Map<Seq<char>, Seq<char>>;

    closed spec fn view(&self) -> Map<Seq<char>, Seq<char>> {
        bag(self.fields@)
    }
}

/// Where a key stands among sorted members, or would be put.
fn find_key(fields: &[ExtraField], key: &str) -> (r: (usize, bool))
    requires
        is_sorted(fields@),
    ensures
        r.0 <= fields@.len(),
        r.1 ==> r.0 < fields@.len() && fields@[r.0 as int].key@ == key@,
        !r.1 ==> !bag(fields@).contains_key(key@),
        forall|i: int| 0 <= i < r.0 ==> precedes((#[trigger] fields@[i]).key@, key@),
        !r.1 ==> forall|i: int|
            r.0 <= i < fields@.len() ==> precedes(key@, (#[trigger] fields@[i]).key@),
{
    let mut i: usize = 0;
    while i < fields.len() && text_before(fields[i].key.as_str(), key)
        invariant
            i <= fields@.len(),
            is_sorted(fields@),
            forall|k: int| 0 <= k < i ==> precedes((#[trigger] fields@[k]).key@, key@),
        decreases fields@.len() - i,
    {
        i = i + 1;
    }
    if i < fields.len() && same(fields[i].key.as_str(), key) {
        return (i, true);
    }
    proof {
        assert forall|k: int| i <= k < fields@.len() implies precedes(
            key@,
            (#[trigger] fields@[k]).key@,
        ) by {
            lemma_precedes_total(fields@[i as int].key@, key@);
            if i < k {
                lemma_precedes_transitive(key@, fields@[i as int].key@, fields@[k].key@);
            }
        }
        lemma_bag(fields@);
        if bag(fields@).contains_key(key@) {
            let k = choose|k: int| 0 <= k < fields@.len() && (#[trigger] fields@[k]).key@ == key@;
            lemma_precedes_total(fields@[k].key@, key@);
        }
    }
    (i, false)
}

impl AperioExtras {
    #[verifier::type_invariant]
    pub(crate) closed spec fn holds(self) -> bool {
        is_sorted(self.fields@) && all_json(self.fields@)
    }

    pub fn new() -> (r: AperioExtras)
        ensures
            r@ == Map::<Seq<char>, Seq<char>>::empty(),
    {
        AperioExtras { fields: Vec::new() }
    }

    pub fn is_empty(&self) -> (r: bool)
        ensures
            r == (self@ == Map::<Seq<char>, Seq<char>>::empty()),
    {
        proof {
            use_type_invariant(self);
            lemma_bag(self.fields@);
            if self.fields@.len() > 0 {
                assert(bag(self.fields@).contains_key(self.fields@[0].key@));
            }
        }
        self.fields.len() == 0
    }

    /// The value of a key, where the bag has it.
    pub fn get(&self, key: &str) -> (r: Option<JsonValue>)
        ensures
            match r {
                Some(value) => self@.contains_key(key@) && value@ == self@[key@],
                None => !self@.contains_key(key@),
            },
    {
        proof {
            use_type_invariant(self);
            lemma_bag(self.fields@);
        }
        let (at, found) = find_key(self.fields.as_slice(), key);
        if found {
            Some(JsonValue { text: self.fields[at].json.clone() })
        } else {
            None
        }
    }

    /// Set a key. The bag's order is deterministic, so the encoded payload is
    /// stable for the same content: callers can compare two encodings to decide
    /// whether a write is even needed.
    pub fn insert(&mut self, key: &str, value: JsonValue)
        ensures
            final(self)@ == old(self)@.insert(key@, value@),
    {
        proof {
            use_type_invariant(&*self);
            use_type_invariant(&value);
            lemma_bag(self.fields@);
        }
        let mut fields: Vec<ExtraField> = Vec::new();
        std::mem::swap(&mut fields, &mut self.fields);
        let ghost before = fields@;
        let (at, found) = find_key(fields.as_slice(), key);
        let field = ExtraField { key: key.to_owned(), json: value.text };
        if found {
            fields.set(at, field);
        } else {
            fields.insert(at, field);
        }
        proof {
            let after = fields@;
            assert forall|i: int, j: int| 0 <= i < j < after.len() implies precedes(
                (#[trigger] after[i]).key@,
                (#[trigger] after[j]).key@,
            ) by {
                if !found {
                    if i < at && j > at {
                        assert(after[i] == before[i] && after[j] == before[j - 1]);
                    } else if i > at {
                        assert(after[i] == before[i - 1] && after[j] == before[j - 1]);
                    } else if i == at {
                        assert(after[j] == before[j - 1]);
                    }
                } else {
                    assert(after[i].key@ == before[i].key@);
                    assert(after[j].key@ == before[j].key@);
                }
            }
            assert forall|i: int| 0 <= i < after.len() implies is_written(
                (#[trigger] after[i]).json@,
            ) by {
                if i != at {
                    if found || i < at {
                        assert(after[i] == before[i]);
                    } else {
                        assert(after[i] == before[i - 1]);
                    }
                }
            }
            let wanted = bag(before).insert(key@, value@);
            assert forall|i: int| 0 <= i < after.len() implies wanted.contains_key(
                (#[trigger] after[i]).key@,
            ) && wanted[after[i].key@] == after[i].json@ by {
                if i != at {
                    lemma_precedes_total(after[i].key@, key@);
                    assert(after[at as int].key@ == key@);
                    if i < at {
                        assert(precedes(after[i].key@, after[at as int].key@));
                    } else {
                        assert(precedes(after[at as int].key@, after[i].key@));
                        lemma_precedes_total(key@, after[i].key@);
                    }
                    if found || i < at {
                        assert(after[i] == before[i]);
                    } else {
                        assert(after[i] == before[i - 1]);
                    }
                }
            }
            assert forall|k: Seq<char>| #[trigger] wanted.contains_key(k) implies exists|i: int|
                0 <= i < after.len() && (#[trigger] after[i]).key@ == k by {
                if k == key@ {
                    assert(after[at as int].key@ == k);
                } else {
                    assert(bag(before).contains_key(k));
                    let i = choose|i: int|
                        0 <= i < before.len() && (#[trigger] before[i]).key@ == k;
                    if found || i < at {
                        assert(after[i].key@ == k);
                    } else {
                        assert(after[i + 1].key@ == k);
                    }
                }
            }
            lemma_same_bag(after, wanted);
        }
        self.fields = fields;
    }

    /// Take a key out of the bag, and its value with it.
    pub fn remove(&mut self, key: &str) -> (r: Option<JsonValue>)
        ensures
            final(self)@ == old(self)@.remove(key@),
            match r {
                Some(value) => old(self)@.contains_key(key@) && value@ == old(self)@[key@],
                None => !old(self)@.contains_key(key@),
            },
    {
        proof {
            use_type_invariant(&*self);
            lemma_bag(self.fields@);
        }
        let mut fields: Vec<ExtraField> = Vec::new();
        std::mem::swap(&mut fields, &mut self.fields);
        let ghost before = fields@;
        let (at, found) = find_key(fields.as_slice(), key);
        if !found {
            assert(bag(before).remove(key@) =~= bag(before));
            self.fields = fields;
            return None;
        }
        let taken = fields.remove(at);
        proof {
            let after = fields@;
            assert forall|i: int, j: int| 0 <= i < j < after.len() implies precedes(
                (#[trigger] after[i]).key@,
                (#[trigger] after[j]).key@,
            ) by {
                let a = if i < at {
                    i
                } else {
                    i + 1
                };
                let b = if j < at {
                    j
                } else {
                    j + 1
                };
                assert(after[i] == before[a] && after[j] == before[b]);
            }
            assert forall|i: int| 0 <= i < after.len() implies is_written(
                (#[trigger] after[i]).json@,
            ) by {
                let a = if i < at {
                    i
                } else {
                    i + 1
                };
                assert(after[i] == before[a]);
            }
            let wanted = bag(before).remove(key@);
            assert forall|i: int| 0 <= i < after.len() implies wanted.contains_key(
                (#[trigger] after[i]).key@,
            ) && wanted[after[i].key@] == after[i].json@ by {
                let a = if i < at {
                    i
                } else {
                    i + 1
                };
                assert(after[i] == before[a]);
                if a < at {
                    lemma_precedes_total(before[a].key@, before[at as int].key@);
                } else {
                    lemma_precedes_total(before[at as int].key@, before[a].key@);
                }
            }
            assert forall|k: Seq<char>| #[trigger] wanted.contains_key(k) implies exists|i: int|
                0 <= i < after.len() && (#[trigger] after[i]).key@ == k by {
                assert(bag(before).contains_key(k));
                let i = choose|i: int| 0 <= i < before.len() && (#[trigger] before[i]).key@ == k;
                if i < at {
                    assert(after[i].key@ == k);
                } else {
                    assert(after[i - 1].key@ == k);
                }
            }
            lemma_same_bag(after, wanted);
        }
        self.fields = fields;
        Some(JsonValue { text: taken.json })
    }
}

// ---------------------------------------------------------------------------
// The payload
// ---------------------------------------------------------------------------

/// Human warning shown above the payload in a visible block.
pub const WARNING_LINE: &'static str =
    "— ⚙ Aperio · bitte nicht bearbeiten / please don't edit —";

/// `aperio:<v>:<base64(json envelope)>`.
pub open spec fn payload_of(fields: Map<Seq<char>, Seq<char>>) -> Seq<char> {
    "aperio:1:"@ + base64_of(envelope_of(object_text(fields)))
}

/// The fields of an envelope: it has a version, any version, and its data is an
/// object or is absent.
pub open spec fn fields_in(bytes: Seq<u8>) -> Option<Map<Seq<char>, Seq<char>>> {
    match short_form(bytes) {
        Some(pair) => pair_in(pair),
        None => None,
    }
}

/// The base64 of a payload line (`aperio:<digits>:...`).
pub open spec fn payload_in(line: Seq<char>) -> Option<Seq<char>> {
    let whole = trimmed(line, Blank::Unicode);
    if starts_with(whole, "aperio:"@) {
        match split_first(whole.skip(7), ':') {
            Some((version, base64)) => if version.len() > 0 && all_digits(version) {
                Some(base64)
            } else {
                None
            },
            None => None,
        }
    } else {
        None
    }
}

/// The bag a payload line carries. Any numeric version is read, so a newer
/// writer degrades to "readable fields" rather than an error.
pub open spec fn carried_by(line: Seq<char>) -> Option<Map<Seq<char>, Seq<char>>> {
    match payload_in(line) {
        Some(base64) => match base64_in(trimmed(base64, Blank::Unicode)) {
            Some(bytes) => fields_in(bytes),
            None => None,
        },
        None => None,
    }
}

/// Loose match for the warning line, tolerant of minor manual edits: it is only
/// used to strip the cosmetic line above the payload.
pub open spec fn is_warning(line: Seq<char>) -> bool {
    let l = lowercase(line);
    holds_text(l, "aperio"@) && (holds_text(l, "bearbeiten"@) || holds_text(l, "edit"@))
}

/// A bag whose payload is known for one: its base64 is that of an envelope that
/// can be read, in the characters of the standard alphabet.
pub open spec fn is_recognized(fields: Map<Seq<char>, Seq<char>>) -> bool {
    let bytes = envelope_of(object_text(fields));
    &&& base64_in(base64_of(bytes)) == Some(bytes)
    &&& fields_in(bytes) is Some
    &&& base64_of(bytes).len() > 0
    &&& forall|i: int|
        0 <= i < base64_of(bytes).len() ==> is_base64(#[trigger] base64_of(bytes)[i])
}

/// A bag that is read back from its payload.
pub open spec fn is_readable(fields: Map<Seq<char>, Seq<char>>) -> bool {
    is_recognized(fields) && fields_in(envelope_of(object_text(fields))) == Some(fields)
}

fn to_payload(extras: &AperioExtras) -> (r: String)
    ensures
        r@ == payload_of(extras@),
        is_shallow(extras@) ==> is_recognized(extras@),
        is_settled(extras@) ==> is_readable(extras@),
{
    proof {
        use_type_invariant(extras);
        assert(is_settled(extras@) ==> is_shallow(extras@));
    }
    let object = write_object(extras.fields.as_slice());
    proof {
        a_written_envelope_is_found(object@);
    }
    let envelope = wrap(object.as_slice());
    let mut out = "aperio:1:".to_owned();
    out.append(encode(envelope.as_slice()).as_str());
    out
}

fn all_digit_chars(s: &str) -> (r: bool)
    ensures
        r == all_digits(s@),
{
    let chars = chars_of(s);
    let mut i: usize = 0;
    while i < chars.len()
        invariant
            i <= chars@.len(),
            chars@ == s@,
            forall|k: int| 0 <= k < i ==> is_digit(#[trigger] s@[k]),
        decreases chars@.len() - i,
    {
        if !digit_char(chars[i]) {
            return false;
        }
        i = i + 1;
    }
    true
}

fn find_payload(line: &str) -> (r: Option<String>)
    ensures
        optional_text(r) == payload_in(line@),
{
    let whole = trim(line, Blank::Unicode);
    if !has_prefix(whole.as_str(), "aperio:") {
        return None;
    }
    proof {
        reveal_strlit("aperio:");
    }
    let chars = chars_of(whole.as_str());
    let rest = string_of(&chars[7..chars.len()]);
    assert(rest@ =~= whole@.skip(7));
    match split_once(rest.as_str(), ':') {
        Some((version, base64)) => if !version.as_str().is_empty() && all_digit_chars(
            version.as_str(),
        ) {
            Some(base64)
        } else {
            None
        },
        None => None,
    }
}

/// What an optional bag holds.
pub open spec fn optional_bag(o: Option<AperioExtras>) -> Option<Map<Seq<char>, Seq<char>>> {
    match o {
        Some(extras) => Some(extras@),
        None => None,
    }
}

/// The rule on a payload's envelope, once it is decoded: it holds a version, any
/// version, and its data is an object or is absent.
pub fn read_envelope(bytes: &[u8]) -> (r: Option<AperioExtras>)
    ensures
        optional_bag(r) == fields_in(bytes@),
{
    match shorten(bytes) {
        Some(pair) => match read_pair(pair.as_slice()) {
            Some(fields) => Some(AperioExtras { fields }),
            None => None,
        },
        None => None,
    }
}

fn parse_payload(line: &str) -> (r: Option<AperioExtras>)
    ensures
        optional_bag(r) == carried_by(line@),
{
    let base64 = match find_payload(line) {
        Some(base64) => base64,
        None => {
            return None;
        },
    };
    match decode(trim(base64.as_str(), Blank::Unicode).as_str()) {
        Some(bytes) => read_envelope(bytes.as_slice()),
        None => None,
    }
}

fn is_warning_line(line: &str) -> (r: bool)
    ensures
        r == is_warning(line@),
{
    let l = ascii_lower(line);
    has_text(l.as_str(), "aperio") && (has_text(l.as_str(), "bearbeiten") || has_text(
        l.as_str(),
        "edit",
    ))
}

// ---------------------------------------------------------------------------
// The block
// ---------------------------------------------------------------------------

/// The last payload line among the first `n`.
pub open spec fn payload_line(lines: Seq<Seq<char>>, n: int) -> Option<int>
    decreases n,
{
    if n <= 0 {
        None
    } else if payload_in(lines[n - 1]) is Some {
        Some(n - 1)
    } else {
        payload_line(lines, n - 1)
    }
}

/// How many of the first `n` lines are left without the blank ones at the end.
pub open spec fn without_gap(lines: Seq<Seq<char>>, n: int) -> int
    decreases n,
{
    if n > 0 && trimmed(lines[n - 1], Blank::Unicode).len() == 0 {
        without_gap(lines, n - 1)
    } else {
        n
    }
}

/// Where the block of a payload line starts: with a recognizable warning line
/// above it, and any blank separator lines before that.
pub open spec fn block_start(lines: Seq<Seq<char>>, at: int) -> int {
    if at >= 1 && is_warning(lines[at - 1]) {
        without_gap(lines, at - 1)
    } else {
        without_gap(lines, at)
    }
}

/// A trimmed text, or nothing where nothing is left of it.
pub open spec fn tidied(s: Seq<char>) -> Option<Seq<char>> {
    let t = trimmed(s, Blank::Unicode);
    if t.len() == 0 {
        None
    } else {
        Some(t)
    }
}

/// A description without its block, and the bag the block carried. A missing or
/// malformed block leaves the text alone.
pub open spec fn extracted(description: Option<Seq<char>>) -> (
    Option<Seq<char>>,
    Option<Map<Seq<char>, Seq<char>>>,
) {
    match description {
        Some(text) => {
            let lines = lines_of(text);
            match payload_line(lines, lines.len() as int) {
                Some(at) => match carried_by(lines[at]) {
                    Some(fields) => (
                        tidied(
                            joined(
                                lines.take(block_start(lines, at)) + lines.skip(at + 1),
                                "\n"@,
                            ),
                        ),
                        Some(fields),
                    ),
                    None => (Some(text), None),
                },
                None => (Some(text), None),
            }
        },
        None => (None, None),
    }
}

/// A text without the carriage returns it ends with.
pub open spec fn without_returns(s: Seq<char>) -> Seq<char>
    decreases s.len(),
{
    if s.len() > 0 && s.last() == '\r' {
        without_returns(s.drop_last())
    } else {
        s
    }
}

/// A text whose lines end in a line feed alone.
pub open spec fn unified(s: Seq<char>) -> Seq<char>
    decreases s.len(),
{
    if s.len() == 0 {
        Seq::empty()
    } else {
        let before = unified(s.drop_last());
        if s.last() == '\n' {
            without_returns(before).push('\n')
        } else {
            before.push(s.last())
        }
    }
}

/// The text a block is put under: a description without its block, its line
/// breaks and its ends tidied as they are when the block is taken off again.
pub open spec fn cleaned(description: Option<Seq<char>>) -> Option<Seq<char>> {
    match extracted(description).0 {
        Some(text) => tidied(unified(text)),
        None => None,
    }
}

/// A description with a block under it.
pub open spec fn with_block(clean: Option<Seq<char>>, fields: Map<Seq<char>, Seq<char>>) -> Seq<
    char,
> {
    let block = WARNING_LINE@ + "\n"@ + payload_of(fields);
    match clean {
        Some(text) => if text.len() > 0 {
            text + "\n\n"@ + block
        } else {
            block
        },
        None => block,
    }
}

/// The description that carries a bag as a visible block.
pub open spec fn embedded(
    description: Option<Seq<char>>,
    fields: Map<Seq<char>, Seq<char>>,
) -> Option<Seq<char>> {
    if fields == Map::<Seq<char>, Seq<char>>::empty() {
        extracted(description).0
    } else {
        Some(with_block(cleaned(description), fields))
    }
}

fn find_payload_line(lines: &[String]) -> (r: Option<usize>)
    ensures
        match r {
            Some(at) => payload_line(texts(lines@), lines@.len() as int) == Some(at as int) && at
                < lines@.len(),
            None => payload_line(texts(lines@), lines@.len() as int) is None,
        },
{
    let ghost all = texts(lines@);
    let mut n: usize = lines.len();
    while n > 0
        invariant
            n <= lines@.len(),
            all == texts(lines@),
            payload_line(all, lines@.len() as int) == payload_line(all, n as int),
        decreases n,
    {
        assert(all[n - 1] == lines@[n - 1]@);
        if find_payload(lines[n - 1].as_str()).is_some() {
            return Some(n - 1);
        }
        n = n - 1;
    }
    None
}

fn find_block_start(lines: &[String], at: usize) -> (r: usize)
    requires
        at < lines@.len(),
    ensures
        r == block_start(texts(lines@), at as int),
        r <= at,
{
    let ghost all = texts(lines@);
    let mut start: usize = at;
    if start >= 1 && is_warning_line(lines[start - 1].as_str()) {
        start = start - 1;
    }
    assert(at >= 1 ==> all[at - 1] == lines@[at - 1]@);
    let ghost from = start as int;
    while start >= 1 && trim(lines[start - 1].as_str(), Blank::Unicode).as_str().is_empty()
        invariant
            start <= from <= at < lines@.len(),
            all == texts(lines@),
            without_gap(all, from) == without_gap(all, start as int),
        decreases start,
    {
        assert(all[start - 1] == lines@[start - 1]@);
        start = start - 1;
    }
    assert(start >= 1 ==> all[start - 1] == lines@[start - 1]@);
    start
}

/// Split a provider description into the clean description and the extras. A
/// missing or malformed block leaves the description untouched, with no extras.
pub fn extract(description: Option<&str>) -> (r: (Option<String>, Option<AperioExtras>))
    ensures
        (optional_text(r.0), optional_bag(r.1)) == extracted(optional_str(description)),
{
    let text = match description {
        Some(text) => text,
        None => {
            return (None, None);
        },
    };
    let all = lines(text);
    let end: usize = all.len();
    let at: usize = match find_payload_line(all.as_slice()) {
        Some(at) => at,
        None => {
            return (Some(text.to_owned()), None);
        },
    };
    let extras = match parse_payload(all[at].as_str()) {
        Some(extras) => extras,
        None => {
            // Looks like a payload but does not decode: leave the text alone.
            return (Some(text.to_owned()), None);
        },
    };
    let start: usize = find_block_start(all.as_slice(), at);
    // Everything before the block, and anything after the payload line (a user
    // might have typed below it).
    let ghost wanted = texts(all@).take(start as int) + texts(all@).skip(at + 1);
    let mut kept: Vec<String> = Vec::new();
    let mut i: usize = 0;
    assert(texts(kept@) =~= Seq::empty());
    while i < start
        invariant
            i <= start <= at < all@.len(),
            texts(kept@) == texts(all@).take(i as int),
        decreases start - i,
    {
        let line = all[i].clone();
        proof {
            lemma_texts_push(kept@, line);
        }
        kept.push(line);
        i = i + 1;
        assert(texts(kept@) =~= texts(all@).take(i as int));
    }
    let mut k: usize = at + 1;
    assert(texts(all@).subrange(at + 1, k as int) =~= Seq::empty());
    assert(texts(kept@) =~= texts(all@).take(start as int) + texts(all@).subrange(
        at + 1,
        k as int,
    ));
    while k < end
        invariant
            at < k <= end,
            end == all@.len(),
            start <= at,
            texts(kept@) == texts(all@).take(start as int) + texts(all@).subrange(
                at + 1,
                k as int,
            ),
        decreases end - k,
    {
        let line = all[k].clone();
        proof {
            lemma_texts_push(kept@, line);
        }
        kept.push(line);
        k = k + 1;
        assert(texts(kept@) =~= texts(all@).take(start as int) + texts(all@).subrange(
            at + 1,
            k as int,
        ));
    }
    assert(texts(kept@) =~= wanted);
    let clean = trim(join(kept.as_slice(), "\n").as_str(), Blank::Unicode);
    if clean.as_str().is_empty() {
        (None, Some(extras))
    } else {
        (Some(clean), Some(extras))
    }
}

fn unify(s: &str) -> (r: String)
    ensures
        r@ == unified(s@),
{
    let chars = chars_of(s);
    let mut out: Vec<char> = Vec::new();
    let mut i: usize = 0;
    assert(s@.take(0) =~= Seq::empty());
    while i < chars.len()
        invariant
            i <= chars@.len(),
            chars@ == s@,
            out@ == unified(s@.take(i as int)),
        decreases chars@.len() - i,
    {
        assert(s@.take(i as int + 1).drop_last() =~= s@.take(i as int));
        if chars[i] == '\n' {
            let ghost before = out@;
            while out.len() > 0 && out[out.len() - 1] == '\r'
                invariant
                    without_returns(before) == without_returns(out@),
                decreases out@.len(),
            {
                let ghost longer = out@;
                let _ = out.pop();
                assert(out@ =~= longer.drop_last());
            }
        }
        out.push(chars[i]);
        i = i + 1;
    }
    assert(s@.take(i as int) =~= s@);
    string_of(out.as_slice())
}

/// Produce the provider description that carries `extras` as a visible block.
/// Strips any existing block first (idempotent and defensive merge), so the
/// caller passes the current provider description and gets back the description
/// with only this block replaced. What stands above the block is tidied as it
/// will be when the block is stripped, so that it stays the same from then on.
/// Empty extras give just the description without a block.
pub fn embed(description: Option<&str>, extras: &AperioExtras) -> (r: Option<String>)
    ensures
        optional_text(r) == embedded(optional_str(description), extras@),
        extras@ != Map::<Seq<char>, Seq<char>>::empty() && is_shallow(extras@) ==> is_recognized(
            extras@,
        ),
        extras@ != Map::<Seq<char>, Seq<char>>::empty() && is_settled(extras@) ==> is_readable(
            extras@,
        ),
{
    let (clean, _) = extract(description);
    if extras.is_empty() {
        return clean;
    }
    let mut out = match clean {
        Some(text) => trim(unify(text.as_str()).as_str(), Blank::Unicode),
        None => String::new(),
    };
    if !out.as_str().is_empty() {
        out.append("\n\n");
    }
    out.append(WARNING_LINE);
    out.append("\n");
    out.append(to_payload(extras).as_str());
    assert(out@ =~= with_block(cleaned(optional_str(description)), extras@));
    Some(out)
}

// ---------------------------------------------------------------------------
// A task's fields
// ---------------------------------------------------------------------------

/// Whether a rule has an aspect no external provider stores.
pub open spec fn needs_extras(rule: TaskRule) -> bool {
    rule.placement !is Schedule || rule.anchor !is FromDate || rule.fixed_dates is Some
}

/// Does this recurrence carry an aspect no external provider stores natively? A
/// plain scheduled rule (`FromDate`, `Schedule`, no fixed dates) maps onto the
/// provider's own recurrence, so it needs no extras block; backlog placement,
/// completion-anchoring, or fixed dates do.
pub fn recurrence_needs_extras(rec: &TaskRecurrence) -> (r: bool)
    ensures
        r == needs_extras(rec@),
{
    let scheduled = match rec.placement {
        RecurrencePlacement::Schedule => true,
        _ => false,
    };
    let from_date = match rec.anchor {
        RecurrenceAnchor::FromDate => true,
        _ => false,
    };
    !scheduled || !from_date || rec.fixed_dates.is_some()
}

/// The bag of a task's fields: its resurface date, its series and its rule,
/// each where it has to ride along.
pub open spec fn task_fields(
    rule: Option<TaskRule>,
    rule_json: Option<Seq<char>>,
    resurface_date: Option<Ymd>,
    series_id: Option<Seq<char>>,
) -> Map<Seq<char>, Seq<char>> {
    let none = Map::<Seq<char>, Seq<char>>::empty();
    let dated = match resurface_date {
        Some(date) => none.insert("resurface_date"@, quoted(iso_text(date))),
        None => none,
    };
    let serial = match series_id {
        Some(id) => dated.insert("series_id"@, quoted(id)),
        None => dated,
    };
    match (rule, rule_json) {
        (Some(r), Some(json)) => if needs_extras(r) {
            serial.insert("recurrence"@, json)
        } else {
            serial
        },
        _ => serial,
    }
}

/// What an optional JSON value is.
pub open spec fn optional_json(o: Option<JsonValue>) -> Option<Seq<char>> {
    match o {
        Some(value) => Some(value@),
        None => None,
    }
}

/// What an optional rule of a task means.
pub open spec fn optional_rule_ref(o: Option<&TaskRecurrence>) -> Option<TaskRule> {
    match o {
        Some(rule) => Some(rule@),
        None => None,
    }
}

/// The text is read back from the JSON string written for it.
pub open spec fn reads_back(text: Seq<char>) -> bool {
    string_in(quoted(text)) == Some(text)
}

/// Build the bag for a task: exactly the fields an external provider cannot
/// represent natively. `resurface_date` and `series_id` ride whenever set; the
/// full `recurrence` rides only when it has a non-native aspect (so a plain
/// scheduled rule stays in the provider's own field), as the JSON the caller
/// writes for it. An empty bag means "nothing to carry": the caller writes no
/// block.
pub fn extras_for_task(
    recurrence: Option<&TaskRecurrence>,
    recurrence_json: Option<JsonValue>,
    resurface_date: Option<Date>,
    series_id: Option<&str>,
) -> (r: AperioExtras)
    ensures
        r@ == task_fields(
            optional_rule_ref(recurrence),
            optional_json(recurrence_json),
            optional_day(resurface_date),
            optional_str(series_id),
        ),
        optional_day(resurface_date) matches Some(date) ==> reads_back(iso_text(date)) && (0
            <= date.year <= 9999 ==> read_day(iso_text(date)) == Some(date)),
        optional_str(series_id) matches Some(id) ==> reads_back(id),
        (optional_json(recurrence_json) matches Some(json) ==> is_plain_json(json)) ==> is_settled(
            r@,
        ),
{
    let mut extras = AperioExtras::new();
    if let Some(date) = resurface_date {
        let text = write_iso(date);
        extras.insert("resurface_date", JsonValue::string(text.as_str()));
    }
    if let Some(id) = series_id {
        extras.insert("series_id", JsonValue::string(id));
    }
    if let Some(rule) = recurrence {
        if recurrence_needs_extras(rule) {
            if let Some(json) = recurrence_json {
                extras.insert("recurrence", json);
            }
        }
    }
    extras
}

/// The text a bag holds under a key, where it is a string.
pub open spec fn text_under(fields: Map<Seq<char>, Seq<char>>, key: Seq<char>) -> Option<Seq<char>> {
    if fields.contains_key(key) {
        string_in(fields[key])
    } else {
        None
    }
}

/// A resurface date after a bag was applied.
pub open spec fn applied_date(fields: Map<Seq<char>, Seq<char>>, before: Option<Ymd>) -> Option<
    Ymd,
> {
    match text_under(fields, "resurface_date"@) {
        Some(text) => match read_day(text) {
            Some(date) => Some(date),
            None => before,
        },
        None => before,
    }
}

/// A series after a bag was applied.
pub open spec fn applied_series(
    fields: Map<Seq<char>, Seq<char>>,
    before: Option<Seq<char>>,
) -> Option<Seq<char>> {
    match text_under(fields, "series_id"@) {
        Some(text) => Some(text),
        None => before,
    }
}

/// Read a bag back into task fields, overriding the provider-native values the
/// bag is authoritative for. Unknown or missing keys leave their field
/// untouched, so a partial or future-versioned bag degrades cleanly.
///
/// `read_rule` is what the caller reads in the bag's `recurrence`, where it is
/// one.
pub fn apply_task_extras(
    extras: &AperioExtras,
    read_rule: Option<TaskRecurrence>,
    recurrence: &mut Option<TaskRecurrence>,
    resurface_date: &mut Option<Date>,
    series_id: &mut Option<String>,
)
    ensures
        optional_rule(*final(recurrence)) == if extras@.contains_key("recurrence"@)
            && read_rule is Some {
            optional_rule(read_rule)
        } else {
            optional_rule(*old(recurrence))
        },
        optional_day(*final(resurface_date)) == applied_date(
            extras@,
            optional_day(*old(resurface_date)),
        ),
        optional_text(*final(series_id)) == applied_series(
            extras@,
            optional_text(*old(series_id)),
        ),
{
    if let Some(value) = extras.get("resurface_date") {
        if let Some(text) = value.as_str() {
            if let Some(date) = parse_day(text.as_str()) {
                *resurface_date = Some(date);
            }
        }
    }
    if let Some(value) = extras.get("series_id") {
        if let Some(text) = value.as_str() {
            *series_id = Some(text);
        }
    }
    if extras.get("recurrence").is_some() {
        if let Some(rule) = read_rule {
            *recurrence = Some(rule);
        }
    }
}

// ---------------------------------------------------------------------------
// Laws
// ---------------------------------------------------------------------------

/// A description a block can be put under and taken off again as it is: none,
/// or one without white space at its ends and without a carriage return at the
/// end of a line.
pub open spec fn is_tidy(clean: Option<Seq<char>>) -> bool {
    clean matches Some(text) ==> {
        &&& text.len() > 0
        &&& !Blank::Unicode.holds(text[0])
        &&& !Blank::Unicode.holds(text.last())
        &&& has_plain_breaks(text)
    }
}

proof fn lemma_without_returns(s: Seq<char>)
    requires
        has_plain_breaks(s),
    ensures
        has_plain_breaks(without_returns(s)),
        without_returns(s).len() > 0 ==> without_returns(s).last() != '\r',
    decreases s.len(),
{
    if s.len() > 0 && s.last() == '\r' {
        lemma_without_returns(s.drop_last());
    }
}

/// A unified text has plain line breaks, and one that has them is unified.
proof fn lemma_unified(s: Seq<char>)
    ensures
        has_plain_breaks(unified(s)),
        has_plain_breaks(s) ==> unified(s) == s,
    decreases s.len(),
{
    if s.len() > 0 {
        let front = s.drop_last();
        lemma_unified(front);
        lemma_without_returns(unified(front));
        if has_plain_breaks(s) {
            assert(has_plain_breaks(front)) by {
                assert forall|i: int| 0 <= i < front.len() - 1 && #[trigger] front[i] == '\r' implies front[i
                    + 1] != '\n' by {
                    assert(s[i] == '\r');
                }
            }
            if s.last() == '\n' && front.len() > 0 {
                assert(s[front.len() - 1] == front.last());
            }
            assert(front.push(s.last()) =~= s);
        }
    } else {
        assert(unified(s) =~= s);
    }
}

/// A piece of a text with plain line breaks has them too.
proof fn lemma_trimmed_breaks(s: Seq<char>, kind: Blank)
    requires
        has_plain_breaks(s),
    ensures
        has_plain_breaks(trimmed_front(s, kind)),
        has_plain_breaks(trimmed_back(s, kind)),
    decreases s.len(),
{
    if s.len() > 0 {
        let front = s.drop_last();
        let back = s.skip(1);
        assert forall|i: int| 0 <= i < front.len() - 1 && #[trigger] front[i] == '\r' implies front[i
            + 1] != '\n' by {
            assert(s[i] == '\r');
        }
        assert forall|i: int| 0 <= i < back.len() - 1 && #[trigger] back[i] == '\r' implies back[i
            + 1] != '\n' by {
            assert(s[i + 1] == '\r');
        }
        lemma_trimmed_breaks(front, kind);
        lemma_trimmed_breaks(back, kind);
    }
}

/// What a block is put under is tidy, and a tidy text stays as it is.
proof fn lemma_cleaned(description: Option<Seq<char>>)
    ensures
        is_tidy(cleaned(description)),
        is_tidy(extracted(description).0) ==> cleaned(description) == extracted(description).0,
{
    let kind = Blank::Unicode;
    if let Some(text) = extracted(description).0 {
        lemma_unified(text);
        let plain = unified(text);
        lemma_trimmed_breaks(plain, kind);
        lemma_trimmed_breaks(trimmed_front(plain, kind), kind);
        lemma_trimmed_ends(plain, kind);
        if is_tidy(Some(text)) {
            lemma_trimmed_same(text, kind);
        }
    }
}

proof fn lemma_base64_char(c: char)
    requires
        is_base64(c),
    ensures
        !Blank::Unicode.holds(c),
        c != '\n',
        c != '\r',
{
}

/// The payload line of a bag carries what its envelope holds.
proof fn lemma_payload(fields: Map<Seq<char>, Seq<char>>)
    requires
        is_recognized(fields),
    ensures
        carried_by(payload_of(fields)) == fields_in(envelope_of(object_text(fields))),
        payload_in(payload_of(fields)) is Some,
        payload_of(fields).len() > 0,
        forall|i: int|
            0 <= i < payload_of(fields).len() ==> #[trigger] payload_of(fields)[i] != '\n'
                && payload_of(fields)[i] != '\r',
{
    reveal_strlit("aperio:1:");
    reveal_strlit("aperio:");
    let b = base64_of(envelope_of(object_text(fields)));
    let line = payload_of(fields);
    let head = "aperio:1:"@;
    assert(head =~= seq!['a', 'p', 'e', 'r', 'i', 'o', ':', '1', ':']);
    assert forall|i: int| 0 <= i < line.len() implies #[trigger] line[i] != '\n' && line[i]
        != '\r' by {
        if i >= 9 {
            assert(line[i] == b[i - 9]);
            lemma_base64_char(b[i - 9]);
        } else {
            assert(line[i] == head[i]);
        }
    }
    lemma_base64_char(b[0]);
    lemma_base64_char(b.last());
    assert(line.last() == b.last());
    assert(line[0] == 'a');
    lemma_trimmed_same(line, Blank::Unicode);
    lemma_trimmed_same(b, Blank::Unicode);
    assert(starts_with(line, "aperio:"@)) by {
        assert(line.subrange(0, 7) =~= "aperio:"@);
    }
    let rest = line.skip(7);
    assert(rest =~= seq!['1', ':'] + b);
    lemma_first_index(rest, ':');
    assert(rest[0] == '1' && rest[1] == ':');
    assert(first_index(rest, ':') == Some(1int));
    assert(rest.take(1) =~= seq!['1']);
    assert(rest.skip(2) =~= b);
    assert(all_digits(seq!['1']));
}

proof fn lemma_warning()
    ensures
        is_warning(WARNING_LINE@),
        WARNING_LINE@.len() > 0,
        forall|i: int|
            0 <= i < WARNING_LINE@.len() ==> #[trigger] WARNING_LINE@[i] != '\n'
                && WARNING_LINE@[i] != '\r',
{
    reveal_strlit("— ⚙ Aperio · bitte nicht bearbeiten / please don't edit —");
    reveal_strlit("aperio");
    reveal_strlit("edit");
    let l = lowercase(WARNING_LINE@);
    assert(l.subrange(4, 10) =~= "aperio"@);
    assert(stands_at(l, "aperio"@, 4));
    assert(l.subrange(51, 55) =~= "edit"@);
    assert(stands_at(l, "edit"@, 51));
}

/// A block comes off again, and what it carries is read.
proof fn lemma_block_comes_off(clean: Option<Seq<char>>, fields: Map<Seq<char>, Seq<char>>)
    requires
        is_tidy(clean),
        is_recognized(fields),
    ensures
        extracted(Some(with_block(clean, fields))) == (
            clean,
            fields_in(envelope_of(object_text(fields))),
        ),
{
    reveal_strlit("\n");
    reveal_strlit("\n\n");
    assert("\n"@ =~= seq!['\n']);
    assert("\n\n"@ =~= seq!['\n', '\n']);
    let payload = payload_of(fields);
    let warning = WARNING_LINE@;
    lemma_payload(fields);
    lemma_warning();
    let block = warning + seq!['\n'] + payload;
    assert(block =~= warning + "\n"@ + payload);
    lemma_split_concat(warning, payload, '\n');
    lemma_split_whole(warning, '\n');
    lemma_split_whole(payload, '\n');
    let tail = split_on(block, '\n');
    assert(tail =~= seq![warning, payload]);
    let whole = with_block(clean, fields);
    assert(whole.last() == payload.last());
    assert(payload.last() == payload[payload.len() - 1]);
    match clean {
        Some(text) => {
            let empty = Seq::<char>::empty();
            let gap = empty + seq!['\n'] + block;
            assert(whole =~= text + seq!['\n'] + gap);
            assert forall|i: int| 0 <= i < whole.len() - 1 && #[trigger] whole[i] == '\r' implies whole[i
                + 1] != '\n' by {
                let n = text.len() as int;
                let w = warning.len() as int;
                if i < n {
                    assert(whole[i] == text[i]);
                    if i == n - 1 {
                        assert(Blank::Unicode.holds('\r'));
                    } else {
                        assert(whole[i + 1] == text[i + 1]);
                    }
                } else if n + 2 <= i < n + 2 + w {
                    assert(whole[i] == warning[i - n - 2]);
                } else if i > n + 2 + w {
                    assert(whole[i] == payload[i - n - 3 - w]);
                }
            }
            lemma_lines(whole);
            lemma_split_concat(empty, block, '\n');
            lemma_split_whole(empty, '\n');
            lemma_split_concat(text, gap, '\n');
            let front = split_on(text, '\n');
            let lines = lines_of(whole);
            assert(lines =~= front + seq![empty, warning, payload]);
            let at = front.len() as int + 2;
            assert(lines[at] == payload);
            assert(payload_line(lines, lines.len() as int) == Some(at));
            assert(lines[at - 1] == warning);
            assert(lines[at - 2] == empty);
            lemma_trimmed_empty(empty, Blank::Unicode);
            lemma_last_piece(text);
            assert(lines[at - 3] == front.last());
            assert(without_gap(lines, at - 2) == at - 2);
            assert(without_gap(lines, at - 1) == at - 2);
            assert(block_start(lines, at) == at - 2);
            assert(lines.take(at - 2) + lines.skip(at + 1) =~= front);
            lemma_joined_split(text, '\n');
            lemma_trimmed_same(text, Blank::Unicode);
        },
        None => {
            assert forall|i: int| 0 <= i < whole.len() - 1 && #[trigger] whole[i] == '\r' implies whole[i
                + 1] != '\n' by {
                let w = warning.len() as int;
                if i < w {
                    assert(whole[i] == warning[i]);
                } else if i > w {
                    assert(whole[i] == payload[i - w - 1]);
                }
            }
            lemma_lines(whole);
            let lines = lines_of(whole);
            assert(lines =~= seq![warning, payload]);
            assert(payload_line(lines, 2) == Some(1int));
            assert(block_start(lines, 1) == 0);
            assert(lines.take(0) + lines.skip(2) =~= Seq::empty());
            lemma_trimmed_empty(Seq::empty(), Blank::Unicode);
        },
    }
}

/// What is embedded is extracted: the bag is read back, and what stood above its
/// block comes back, as it was where it was tidy.
pub proof fn what_is_embedded_is_extracted(
    description: Option<Seq<char>>,
    fields: Map<Seq<char>, Seq<char>>,
)
    requires
        is_readable(fields),
        fields != Map::<Seq<char>, Seq<char>>::empty(),
    ensures
        extracted(embedded(description, fields)) == (cleaned(description), Some(fields)),
        is_tidy(extracted(description).0) ==> cleaned(description) == extracted(description).0,
{
    lemma_cleaned(description);
    lemma_block_comes_off(cleaned(description), fields);
}

/// Embedding twice leaves one block, and embedding another bag replaces the
/// first: what comes out is what embedding it at once would have given. An empty
/// bag takes the block off. All that is asked of the first bag is that its block
/// is known for one.
pub proof fn embedding_replaces_the_block(
    description: Option<Seq<char>>,
    first: Map<Seq<char>, Seq<char>>,
    second: Map<Seq<char>, Seq<char>>,
)
    requires
        is_recognized(first),
        first != Map::<Seq<char>, Seq<char>>::empty(),
    ensures
        embedded(embedded(description, first), first) == embedded(description, first),
        embedded(embedded(description, first), second) == if second == Map::<
            Seq<char>,
            Seq<char>,
        >::empty() {
            cleaned(description)
        } else {
            embedded(description, second)
        },
{
    lemma_cleaned(description);
    lemma_block_comes_off(cleaned(description), first);
    lemma_cleaned(embedded(description, first));
}

/// A description without a payload line is left alone.
pub proof fn a_text_without_a_block_is_untouched(text: Seq<char>)
    requires
        forall|k: int|
            0 <= k < lines_of(text).len() ==> payload_in(#[trigger] lines_of(text)[k]) is None,
    ensures
        extracted(Some(text)) == (Some(text), None::<Map<Seq<char>, Seq<char>>>),
{
    lemma_no_payload(lines_of(text), lines_of(text).len() as int);
}

proof fn lemma_no_payload(lines: Seq<Seq<char>>, n: int)
    requires
        n <= lines.len(),
        forall|k: int| 0 <= k < lines.len() ==> payload_in(#[trigger] lines[k]) is None,
    ensures
        payload_line(lines, n) is None,
    decreases n,
{
    if n > 0 {
        assert(payload_in(lines[n - 1]) is None);
        lemma_no_payload(lines, n - 1);
    }
}

/// A plain scheduled rule carries nothing of its own, and a task with nothing to
/// carry gives an empty bag.
pub proof fn nothing_to_carry_is_an_empty_bag(rule: Option<TaskRule>, rule_json: Option<Seq<char>>)
    requires
        rule matches Some(r) ==> !needs_extras(r),
    ensures
        task_fields(rule, rule_json, None, None) == Map::<Seq<char>, Seq<char>>::empty(),
{
}

/// A bag made for a task gives the task its series and its resurface date back,
/// where a JSON string is read back as the text it was written for and a date
/// as the day, and holds the JSON of its rule where that has to ride along.
pub proof fn a_tasks_fields_come_back(
    rule: Option<TaskRule>,
    rule_json: Option<Seq<char>>,
    resurface_date: Option<Ymd>,
    series_id: Option<Seq<char>>,
    date_before: Option<Ymd>,
    series_before: Option<Seq<char>>,
)
    requires
        resurface_date matches Some(date) ==> reads_back(iso_text(date)) && read_day(
            iso_text(date),
        ) == Some(date),
        series_id matches Some(id) ==> reads_back(id),
    ensures
        ({
            let fields = task_fields(rule, rule_json, resurface_date, series_id);
            &&& applied_date(fields, date_before) == match resurface_date {
                Some(date) => Some(date),
                None => date_before,
            }
            &&& applied_series(fields, series_before) == match series_id {
                Some(id) => Some(id),
                None => series_before,
            }
            &&& fields.contains_key("recurrence"@) <==> (rule_json is Some && rule is Some
                && needs_extras(rule.unwrap()))
            &&& fields.contains_key("recurrence"@) ==> Some(fields["recurrence"@]) == rule_json
        }),
{
    reveal_strlit("resurface_date");
    reveal_strlit("series_id");
    reveal_strlit("recurrence");
    assert("resurface_date"@.len() == 14);
    assert("series_id"@.len() == 9);
    assert("recurrence"@.len() == 10);
}

/// A rule rides along exactly where it is not a plain scheduled one: it is placed
/// in the backlog, counts from its completion, or has fixed dates.
pub proof fn what_rides_along(rule: TaskRule)
    ensures
        !needs_extras(rule) <==> rule.placement is Schedule && rule.anchor is FromDate
            && rule.fixed_dates is None,
{
}

proof fn lemma_payload_found(lines: Seq<Seq<char>>, n: int)
    requires
        0 <= n <= lines.len(),
    ensures
        match payload_line(lines, n) {
            Some(at) => 0 <= at < n && payload_in(lines[at]) is Some && forall|i: int|
                at < i < n ==> payload_in(#[trigger] lines[i]) is None,
            None => forall|i: int| 0 <= i < n ==> payload_in(#[trigger] lines[i]) is None,
        },
    decreases n,
{
    if n > 0 && payload_in(lines[n - 1]) is None {
        lemma_payload_found(lines, n - 1);
    }
}

proof fn lemma_gap(lines: Seq<Seq<char>>, n: int)
    requires
        0 <= n <= lines.len(),
    ensures
        0 <= without_gap(lines, n) <= n,
        forall|i: int|
            without_gap(lines, n) <= i < n ==> trimmed(#[trigger] lines[i], Blank::Unicode).len()
                == 0,
        without_gap(lines, n) > 0 ==> trimmed(
            lines[without_gap(lines, n) - 1],
            Blank::Unicode,
        ).len() > 0,
    decreases n,
{
    if n > 0 && trimmed(lines[n - 1], Blank::Unicode).len() == 0 {
        lemma_gap(lines, n - 1);
    }
}

/// The block of the last payload line: the line itself, a warning right above it,
/// and the blank lines above these.
pub open spec fn is_last_block(lines: Seq<Seq<char>>, start: int, at: int) -> bool {
    let top = if at >= 1 && is_warning(lines[at - 1]) {
        at - 1
    } else {
        at
    };
    &&& 0 <= start <= top <= at < lines.len()
    &&& payload_in(lines[at]) is Some
    &&& forall|i: int| at < i < lines.len() ==> payload_in(#[trigger] lines[i]) is None
    &&& forall|i: int|
        start <= i < top ==> trimmed(#[trigger] lines[i], Blank::Unicode).len() == 0
    &&& start > 0 ==> trimmed(lines[start - 1], Blank::Unicode).len() > 0
}

/// What is extracted is what the last payload line carries, and what is left is
/// all above and all below its block. Where that line carries nothing that can be
/// read, or there is none, the text is left alone.
pub proof fn the_last_payload_counts(text: Seq<char>)
    ensures
        ({
            let lines = lines_of(text);
            match extracted(Some(text)).1 {
                Some(fields) => exists|start: int, at: int|
                    #[trigger] is_last_block(lines, start, at) && carried_by(lines[at]) == Some(
                        fields,
                    ) && extracted(Some(text)).0 == tidied(
                        joined(lines.take(start) + lines.skip(at + 1), "\n"@),
                    ),
                None => extracted(Some(text)).0 == Some(text) && forall|at: int|
                    0 <= at < lines.len() && payload_in(#[trigger] lines[at]) is Some && (forall|
                        i: int,
                    |
                        at < i < lines.len() ==> payload_in(#[trigger] lines[i]) is None)
                        ==> carried_by(lines[at]) is None,
            }
        }),
{
    let lines = lines_of(text);
    lemma_payload_found(lines, lines.len() as int);
    if let Some(at) = payload_line(lines, lines.len() as int) {
        let start = block_start(lines, at);
        let top = if at >= 1 && is_warning(lines[at - 1]) {
            at - 1
        } else {
            at
        };
        lemma_gap(lines, top);
        assert(is_last_block(lines, start, at));
        assert forall|other: int|
            0 <= other < lines.len() && payload_in(#[trigger] lines[other]) is Some && (forall|
                i: int,
            |
                other < i < lines.len() ==> payload_in(#[trigger] lines[i]) is None) implies other
            == at by {
            if other < at {
                assert(payload_in(lines[at]) is None);
            }
            if at < other {
                assert(payload_in(lines[other]) is None);
            }
        }
    }
}

} // verus!
