//! The versioned envelope around a bag of fields: `{"v":1,"d":{...}}`.
//!
//! The envelope is forward-compatible: it has a version `v` and its data `d`,
//! each at most once, and whatever else a newer writer put beside them is passed
//! over unread. Its short form is the list of the two, `[1,{...}]`, which is
//! accepted in its place. What is read here is how the two are found; what they
//! hold is read in the short form.

use vstd::prelude::*;

use crate::text::{optional_text, same};

verus! {

pub const QUOTE: u8 = 34;

pub const COMMA: u8 = 44;

pub const ONE: u8 = 49;

pub const COLON: u8 = 58;

pub const OPEN_LIST: u8 = 91;

pub const BACKSLASH: u8 = 92;

pub const CLOSE_LIST: u8 = 93;

pub const LETTER_D: u8 = 100;

pub const LETTER_V: u8 = 118;

pub const OPEN_OBJECT: u8 = 123;

pub const CLOSE_OBJECT: u8 = 125;

/// White space between the tokens of JSON.
pub open spec fn is_gap(b: u8) -> bool {
    b == 32 || b == 9 || b == 10 || b == 13
}

// ---------------------------------------------------------------------------
// What is asked of serde_json
// ---------------------------------------------------------------------------

/// Whether bytes are JSON: whether `serde_json::from_slice::<IgnoredAny>` accepts
/// them.
pub uninterp spec fn is_json(bytes: Seq<u8>) -> bool;

/// Checks that bytes are JSON: `serde_json::from_slice` into `IgnoredAny`, which
/// goes by the grammar alone and builds no value.
#[verifier::external_body]
fn checks(bytes: &[u8]) -> (r: bool)
    ensures
        r == is_json(bytes@),
{
    serde_json::from_slice::<serde::de::IgnoredAny>(bytes).is_ok()
}

/// The text of a JSON string, as bytes: what `serde_json::from_slice::<String>`
/// reads.
pub uninterp spec fn key_in(bytes: Seq<u8>) -> Option<Seq<char>>;

/// Reads a JSON string: `serde_json::from_slice::<String>`.
#[verifier::external_body]
fn read_key(bytes: &[u8]) -> (r: Option<String>)
    ensures
        optional_text(r) == key_in(bytes@),
{
    serde_json::from_slice::<String>(bytes).ok()
}

// ---------------------------------------------------------------------------
// The parts of a list or an object
// ---------------------------------------------------------------------------

/// How far JSON has been gone through.
pub struct Split {
    /// How many lists and objects are open.
    pub depth: int,
    pub in_string: bool,
    /// Whether the byte before is a backslash that escapes this one.
    pub escaped: bool,
    /// The parts of the outermost list or object that are complete.
    pub parts: Seq<Seq<u8>>,
    /// The part that is not, without white space between its tokens.
    pub part: Seq<u8>,
}

/// Before the first byte.
pub open spec fn outside() -> Split {
    Split {
        depth: 0,
        in_string: false,
        escaped: false,
        parts: Seq::empty(),
        part: Seq::empty(),
    }
}

/// One byte further. A part ends where the outermost list or object has a comma
/// or a colon, and at its end.
pub open spec fn stepped(s: Split, b: u8) -> Split {
    if s.in_string {
        Split {
            in_string: s.escaped || b != QUOTE,
            escaped: !s.escaped && b == BACKSLASH,
            part: s.part.push(b),
            ..s
        }
    } else if is_gap(b) {
        s
    } else if b == QUOTE {
        Split { in_string: true, part: s.part.push(b), ..s }
    } else if b == OPEN_LIST || b == OPEN_OBJECT {
        if s.depth == 0 {
            Split { depth: 1, ..s }
        } else {
            Split { depth: s.depth + 1, part: s.part.push(b), ..s }
        }
    } else if b == CLOSE_LIST || b == CLOSE_OBJECT {
        if s.depth > 1 {
            Split { depth: s.depth - 1, part: s.part.push(b), ..s }
        } else if s.part.len() > 0 {
            Split { depth: 0, parts: s.parts.push(s.part), part: Seq::empty(), ..s }
        } else {
            Split { depth: 0, ..s }
        }
    } else if s.depth == 1 && (b == COMMA || b == COLON) {
        Split { parts: s.parts.push(s.part), part: Seq::empty(), ..s }
    } else {
        Split { part: s.part.push(b), ..s }
    }
}

/// Bytes gone through from some point on.
pub open spec fn split_from(s: Split, bytes: Seq<u8>) -> Split
    decreases bytes.len(),
{
    if bytes.len() == 0 {
        s
    } else {
        stepped(split_from(s, bytes.drop_last()), bytes.last())
    }
}

/// The parts of the list or the object that JSON is: its items, or its keys and
/// its values in turn.
pub open spec fn parts_of(bytes: Seq<u8>) -> Seq<Seq<u8>> {
    split_from(outside(), bytes).parts
}

/// The first byte that is no white space.
pub open spec fn opening(bytes: Seq<u8>) -> Option<u8>
    decreases bytes.len(),
{
    if bytes.len() == 0 {
        None
    } else if is_gap(bytes[0]) {
        opening(bytes.skip(1))
    } else {
        Some(bytes[0])
    }
}

/// What a list of byte strings holds.
pub open spec fn strings(parts: Seq<Vec<u8>>) -> Seq<Seq<u8>> {
    parts.map_values(|part: Vec<u8>| part@)
}

proof fn lemma_strings_push(parts: Seq<Vec<u8>>, part: Vec<u8>)
    ensures
        strings(parts.push(part)) == strings(parts).push(part@),
{
    assert(strings(parts.push(part)) =~= strings(parts).push(part@));
}

fn gap_byte(b: u8) -> (r: bool)
    ensures
        r == is_gap(b),
{
    b == 32 || b == 9 || b == 10 || b == 13
}

fn split_parts(bytes: &[u8]) -> (r: Vec<Vec<u8>>)
    ensures
        strings(r@) == parts_of(bytes@),
{
    let mut depth: usize = 0;
    let mut in_string = false;
    let mut escaped = false;
    let mut parts: Vec<Vec<u8>> = Vec::new();
    let mut part: Vec<u8> = Vec::new();
    let mut i: usize = 0;
    assert(strings(parts@) =~= Seq::empty());
    while i < bytes.len()
        invariant
            i <= bytes.len(),
            depth <= i,
            split_from(outside(), bytes@.take(i as int)) == (Split {
                depth: depth as int,
                in_string,
                escaped,
                parts: strings(parts@),
                part: part@,
            }),
        decreases bytes.len() - i,
    {
        assert(bytes@.take(i as int + 1).drop_last() =~= bytes@.take(i as int));
        let b: u8 = bytes[i];
        let opens = b == OPEN_LIST || b == OPEN_OBJECT;
        let closes = b == CLOSE_LIST || b == CLOSE_OBJECT;
        if in_string {
            part.push(b);
            in_string = escaped || b != QUOTE;
            escaped = !escaped && b == BACKSLASH;
        } else if gap_byte(b) {
        } else if b == QUOTE {
            part.push(b);
            in_string = true;
        } else if opens && depth == 0 {
            depth = 1;
        } else if opens {
            part.push(b);
            depth = depth + 1;
        } else if closes && depth > 1 {
            part.push(b);
            depth = depth - 1;
        } else if closes && part.len() > 0 {
            proof {
                lemma_strings_push(parts@, part);
            }
            parts.push(part);
            part = Vec::new();
            depth = 0;
        } else if closes {
            depth = 0;
        } else if depth == 1 && (b == COMMA || b == COLON) {
            proof {
                lemma_strings_push(parts@, part);
            }
            parts.push(part);
            part = Vec::new();
        } else {
            part.push(b);
        }
        i = i + 1;
    }
    assert(bytes@.take(i as int) =~= bytes@);
    parts
}

fn find_opening(bytes: &[u8]) -> (r: Option<u8>)
    ensures
        r == opening(bytes@),
{
    let mut i: usize = 0;
    assert(bytes@.skip(0) =~= bytes@);
    while i < bytes.len()
        invariant
            i <= bytes.len(),
            opening(bytes@) == opening(bytes@.skip(i as int)),
        decreases bytes.len() - i,
    {
        assert(bytes@.skip(i as int).skip(1) =~= bytes@.skip(i as int + 1));
        if !gap_byte(bytes[i]) {
            return Some(bytes[i]);
        }
        i = i + 1;
    }
    None
}

// ---------------------------------------------------------------------------
// The short form
// ---------------------------------------------------------------------------

/// `"v"`.
pub open spec fn version_key() -> Seq<u8> {
    seq![QUOTE, LETTER_V, QUOTE]
}

/// `"d"`.
pub open spec fn data_key() -> Seq<u8> {
    seq![QUOTE, LETTER_D, QUOTE]
}

/// `{}`.
pub open spec fn no_data() -> Seq<u8> {
    seq![OPEN_OBJECT, CLOSE_OBJECT]
}

/// What a key names. The two that are looked for can be spelled with escapes.
pub open spec fn name_of(key: Seq<u8>) -> Option<Seq<char>> {
    if key == version_key() {
        Some("v"@)
    } else if key == data_key() {
        Some("d"@)
    } else {
        key_in(key)
    }
}

/// The values of the first `n` members that have this name.
pub open spec fn values_named(parts: Seq<Seq<u8>>, n: int, name: Seq<char>) -> Seq<Seq<u8>>
    decreases n,
{
    if n <= 0 {
        Seq::empty()
    } else {
        let before = values_named(parts, n - 1, name);
        if name_of(parts[2 * (n - 1)]) == Some(name) {
            before.push(parts[2 * (n - 1) + 1])
        } else {
            before
        }
    }
}

/// `[<version>,<data>]`.
pub open spec fn short(version: Seq<u8>, data: Seq<u8>) -> Seq<u8> {
    seq![OPEN_LIST] + version + seq![COMMA] + data + seq![CLOSE_LIST]
}

/// The short form of an envelope, which is JSON: a list of the version and, where
/// there is any, the data; or an object whose keys can all be read, that names
/// the version once and the data once or not at all. Its other members are
/// passed over.
pub open spec fn short_form(bytes: Seq<u8>) -> Option<Seq<u8>> {
    let parts = parts_of(bytes);
    let n = parts.len() as int / 2;
    let versions = values_named(parts, n, "v"@);
    let data = values_named(parts, n, "d"@);
    if !is_json(bytes) {
        None
    } else if opening(bytes) == Some(OPEN_LIST) {
        if parts.len() == 1 {
            Some(short(parts[0], no_data()))
        } else if parts.len() == 2 {
            Some(short(parts[0], parts[1]))
        } else {
            None
        }
    } else if opening(bytes) == Some(OPEN_OBJECT) {
        if exists|k: int| 0 <= k < n && name_of(#[trigger] parts[2 * k]) is None {
            None
        } else if versions.len() != 1 || data.len() > 1 {
            None
        } else if data.len() == 1 {
            Some(short(versions[0], data[0]))
        } else {
            Some(short(versions[0], no_data()))
        }
    } else {
        None
    }
}

fn push_bytes(out: &mut Vec<u8>, more: &[u8])
    ensures
        final(out)@ == old(out)@ + more@,
{
    let ghost before = out@;
    let mut i: usize = 0;
    assert(before + more@.take(0) =~= before);
    while i < more.len()
        invariant
            i <= more.len(),
            out@ == before + more@.take(i as int),
        decreases more.len() - i,
    {
        out.push(more[i]);
        assert(before + more@.take(i as int + 1) =~= (before + more@.take(i as int)).push(
            more@[i as int],
        ));
        i = i + 1;
    }
    assert(more@.take(i as int) =~= more@);
}

fn shorten_parts(version: &[u8], data: &[u8]) -> (r: Vec<u8>)
    ensures
        r@ == short(version@, data@),
{
    let mut out: Vec<u8> = Vec::new();
    out.push(OPEN_LIST);
    push_bytes(&mut out, version);
    out.push(COMMA);
    push_bytes(&mut out, data);
    out.push(CLOSE_LIST);
    assert(out@ =~= short(version@, data@));
    out
}

/// The two keys that are looked for, another one, or one that cannot be read.
enum Key {
    Version,
    Data,
    Other,
    Unread,
}

spec fn key_of(name: Option<Seq<char>>) -> Key {
    match name {
        None => Key::Unread,
        Some(text) => if text == "v"@ {
            Key::Version
        } else if text == "d"@ {
            Key::Data
        } else {
            Key::Other
        },
    }
}

fn same_bytes(a: &[u8], b: &[u8]) -> (r: bool)
    ensures
        r == (a@ == b@),
{
    if a.len() != b.len() {
        return false;
    }
    let mut i: usize = 0;
    while i < a.len()
        invariant
            i <= a.len(),
            a@.len() == b@.len(),
            forall|k: int| 0 <= k < i ==> a@[k] == b@[k],
        decreases a.len() - i,
    {
        if a[i] != b[i] {
            return false;
        }
        i = i + 1;
    }
    assert(a@ =~= b@);
    true
}

proof fn lemma_names_differ()
    ensures
        "v"@ != "d"@,
{
    reveal_strlit("v");
    reveal_strlit("d");
    assert("v"@[0] != "d"@[0]);
}

fn find_key(raw: &[u8]) -> (r: Key)
    ensures
        r == key_of(name_of(raw@)),
{
    proof {
        lemma_names_differ();
    }
    let version: [u8; 3] = [QUOTE, LETTER_V, QUOTE];
    let data: [u8; 3] = [QUOTE, LETTER_D, QUOTE];
    assert(version@ =~= version_key());
    assert(data@ =~= data_key());
    if same_bytes(raw, version.as_slice()) {
        return Key::Version;
    }
    if same_bytes(raw, data.as_slice()) {
        return Key::Data;
    }
    match read_key(raw) {
        None => Key::Unread,
        Some(name) => if same(name.as_str(), "v") {
            Key::Version
        } else if same(name.as_str(), "d") {
            Key::Data
        } else {
            Key::Other
        },
    }
}

fn shorten_object(parts: &[Vec<u8>]) -> (r: Option<Vec<u8>>)
    ensures
        ({
            let all = strings(parts@);
            let n = all.len() as int / 2;
            let versions = values_named(all, n, "v"@);
            let data = values_named(all, n, "d"@);
            match r {
                Some(found) => {
                    &&& !exists|k: int| 0 <= k < n && name_of(#[trigger] all[2 * k]) is None
                    &&& versions.len() == 1
                    &&& data.len() <= 1
                    &&& found@ == if data.len() == 1 {
                        short(versions[0], data[0])
                    } else {
                        short(versions[0], no_data())
                    }
                },
                None => (exists|k: int| 0 <= k < n && name_of(#[trigger] all[2 * k]) is None)
                    || versions.len() != 1 || data.len() > 1,
            }
        }),
{
    let ghost all = strings(parts@);
    let n: usize = parts.len() / 2;
    let mut version: Option<usize> = None;
    let mut data: Option<usize> = None;
    let mut again = false;
    let mut i: usize = 0;
    proof {
        lemma_names_differ();
    }
    while i < n
        invariant
            i <= n,
            n == parts@.len() / 2,
            2 * n <= usize::MAX,
            all == strings(parts@),
            "v"@ != "d"@,
            forall|k: int| 0 <= k < i ==> name_of(#[trigger] all[2 * k]) is Some,
            match version {
                Some(k) => k < parts@.len() && values_named(all, i as int, "v"@).len() >= 1
                    && values_named(all, i as int, "v"@)[0] == parts@[k as int]@,
                None => values_named(all, i as int, "v"@).len() == 0,
            },
            match data {
                Some(k) => k < parts@.len() && values_named(all, i as int, "d"@).len() >= 1
                    && values_named(all, i as int, "d"@)[0] == parts@[k as int]@,
                None => values_named(all, i as int, "d"@).len() == 0,
            },
            again == (values_named(all, i as int, "v"@).len() > 1 || values_named(
                all,
                i as int,
                "d"@,
            ).len() > 1),
        decreases n - i,
    {
        assert(all[2 * i] == parts@[2 * i]@);
        assert(all[2 * i + 1] == parts@[2 * i + 1]@);
        match find_key(parts[2 * i].as_slice()) {
            Key::Unread => {
                return None;
            },
            Key::Version => {
                if version.is_some() {
                    again = true;
                } else {
                    version = Some(2 * i + 1);
                }
            },
            Key::Data => {
                if data.is_some() {
                    again = true;
                } else {
                    data = Some(2 * i + 1);
                }
            },
            Key::Other => {},
        }
        i = i + 1;
    }
    if again {
        return None;
    }
    match version {
        None => None,
        Some(v) => match data {
            Some(d) => Some(shorten_parts(parts[v].as_slice(), parts[d].as_slice())),
            None => {
                let nothing: [u8; 2] = [OPEN_OBJECT, CLOSE_OBJECT];
                assert(nothing@ =~= no_data());
                Some(shorten_parts(parts[v].as_slice(), nothing.as_slice()))
            },
        },
    }
}

/// What optional bytes are.
pub open spec fn optional_bytes(o: Option<Vec<u8>>) -> Option<Seq<u8>> {
    match o {
        Some(bytes) => Some(bytes@),
        None => None,
    }
}

/// Finds the version and the data of an envelope, as the list of the two.
pub fn shorten(bytes: &[u8]) -> (r: Option<Vec<u8>>)
    ensures
        optional_bytes(r) == short_form(bytes@),
{
    if !checks(bytes) {
        return None;
    }
    let parts = split_parts(bytes);
    match find_opening(bytes) {
        Some(b) => if b == OPEN_OBJECT {
            shorten_object(parts.as_slice())
        } else if b != OPEN_LIST {
            None
        } else if parts.len() == 1 {
            let nothing: [u8; 2] = [OPEN_OBJECT, CLOSE_OBJECT];
            assert(nothing@ =~= no_data());
            Some(shorten_parts(parts[0].as_slice(), nothing.as_slice()))
        } else if parts.len() == 2 {
            Some(shorten_parts(parts[0].as_slice(), parts[1].as_slice()))
        } else {
            None
        },
        None => None,
    }
}

// ---------------------------------------------------------------------------
// Writing one
// ---------------------------------------------------------------------------

/// `{"v":1,"d":`.
pub open spec fn envelope_head() -> Seq<u8> {
    seq![OPEN_OBJECT] + version_key() + seq![COLON, ONE, COMMA] + data_key() + seq![COLON]
}

/// The envelope around an object.
pub open spec fn envelope_of(object: Seq<u8>) -> Seq<u8> {
    envelope_head() + object + seq![CLOSE_OBJECT]
}

/// Puts an object into an envelope.
pub fn wrap(object: &[u8]) -> (r: Vec<u8>)
    ensures
        r@ == envelope_of(object@),
{
    let head: [u8; 11] = [
        OPEN_OBJECT,
        QUOTE,
        LETTER_V,
        QUOTE,
        COLON,
        ONE,
        COMMA,
        QUOTE,
        LETTER_D,
        QUOTE,
        COLON,
    ];
    assert(head@ =~= envelope_head());
    let mut out: Vec<u8> = Vec::new();
    push_bytes(&mut out, head.as_slice());
    push_bytes(&mut out, object);
    out.push(CLOSE_OBJECT);
    assert(out@ =~= envelope_of(object@));
    out
}

/// Inside the outermost list or object, before the next part.
pub open spec fn inside() -> Split {
    Split { depth: 1, ..outside() }
}

/// Bytes that are one part wherever they stand in a list or an object: what they
/// open they close, and they have no white space between their tokens.
pub open spec fn is_one_part(bytes: Seq<u8>) -> bool {
    bytes.len() > 0 && split_from(inside(), bytes) == (Split { part: bytes, ..inside() })
}

proof fn lemma_one_more(s: Split, bytes: Seq<u8>, b: u8)
    ensures
        split_from(s, bytes.push(b)) == stepped(split_from(s, bytes), b),
{
    assert(bytes.push(b).drop_last() =~= bytes);
}

proof fn lemma_split_on(s: Split, a: Seq<u8>, b: Seq<u8>)
    ensures
        split_from(s, a + b) == split_from(split_from(s, a), b),
    decreases b.len(),
{
    if b.len() == 0 {
        assert(a + b =~= a);
    } else {
        assert((a + b).drop_last() =~= a + b.drop_last());
        lemma_split_on(s, a, b.drop_last());
    }
}

/// The parts that are complete already do not matter.
proof fn lemma_parts_before(s: Split, before: Seq<Seq<u8>>, bytes: Seq<u8>)
    ensures
        split_from(Split { parts: before + s.parts, ..s }, bytes) == (Split {
            parts: before + split_from(s, bytes).parts,
            ..split_from(s, bytes)
        }),
    decreases bytes.len(),
{
    if bytes.len() > 0 {
        lemma_parts_before(s, before, bytes.drop_last());
        let now = split_from(s, bytes.drop_last());
        assert((before + now.parts).push(now.part) =~= before + now.parts.push(now.part));
    }
}

proof fn lemma_head()
    ensures
        split_from(outside(), envelope_head()) == (Split {
            parts: seq![version_key(), seq![ONE], data_key()],
            ..inside()
        }),
{
    let s = outside();
    let none = Seq::<u8>::empty();
    let b1 = none.push(OPEN_OBJECT);
    let b2 = b1.push(QUOTE);
    let b3 = b2.push(LETTER_V);
    let b4 = b3.push(QUOTE);
    let b5 = b4.push(COLON);
    let b6 = b5.push(ONE);
    let b7 = b6.push(COMMA);
    let b8 = b7.push(QUOTE);
    let b9 = b8.push(LETTER_D);
    let b10 = b9.push(QUOTE);
    let b11 = b10.push(COLON);
    lemma_one_more(s, none, OPEN_OBJECT);
    lemma_one_more(s, b1, QUOTE);
    lemma_one_more(s, b2, LETTER_V);
    lemma_one_more(s, b3, QUOTE);
    assert(split_from(s, b4).part =~= version_key());
    lemma_one_more(s, b4, COLON);
    lemma_one_more(s, b5, ONE);
    assert(split_from(s, b6).part =~= seq![ONE]);
    lemma_one_more(s, b6, COMMA);
    lemma_one_more(s, b7, QUOTE);
    lemma_one_more(s, b8, LETTER_D);
    lemma_one_more(s, b9, QUOTE);
    assert(split_from(s, b10).part =~= data_key());
    lemma_one_more(s, b10, COLON);
    assert(split_from(s, b11).parts =~= seq![version_key(), seq![ONE], data_key()]);
    assert(b11 =~= envelope_head());
}

/// An envelope that was written has its version and its object found again.
pub proof fn a_written_envelope_is_found(object: Seq<u8>)
    requires
        is_one_part(object),
        is_json(envelope_of(object)),
    ensures
        short_form(envelope_of(object)) == Some(short(seq![ONE], object)),
{
    let s = outside();
    let head = envelope_head();
    let before = seq![version_key(), seq![ONE], data_key()];
    let whole = envelope_of(object);
    lemma_head();
    lemma_split_on(s, head, object);
    assert(before + inside().parts =~= before);
    lemma_parts_before(inside(), before, object);
    lemma_one_more(s, head + object, CLOSE_OBJECT);
    assert(whole =~= (head + object).push(CLOSE_OBJECT));
    let parts = parts_of(whole);
    assert(parts =~= seq![version_key(), seq![ONE], data_key(), object]);
    assert(whole[0] == OPEN_OBJECT);
    assert(parts.len() == 4);
    assert(data_key() != version_key()) by {
        assert(data_key()[1] != version_key()[1]);
    }
    lemma_names_differ();
    reveal_with_fuel(values_named, 3);
    assert(values_named(parts, 2, "v"@) =~= seq![seq![ONE]]);
    assert(values_named(parts, 2, "d"@) =~= seq![object]);
    assert forall|k: int| 0 <= k < 2 implies name_of(#[trigger] parts[2 * k]) is Some by {
        assert(k == 0 || k == 1);
    }
}

// ---------------------------------------------------------------------------
// What an envelope is
// ---------------------------------------------------------------------------

/// Of the first `n` members one alone has this name.
pub open spec fn is_only(parts: Seq<Seq<u8>>, n: int, name: Seq<char>, k: int) -> bool {
    &&& 0 <= k < n
    &&& name_of(parts[2 * k]) == Some(name)
    &&& forall|j: int| 0 <= j < n && name_of(#[trigger] parts[2 * j]) == Some(name) ==> j == k
}

/// None of the first `n` members has this name.
pub open spec fn is_absent(parts: Seq<Seq<u8>>, n: int, name: Seq<char>) -> bool {
    forall|j: int| 0 <= j < n ==> name_of(#[trigger] parts[2 * j]) != Some(name)
}

proof fn lemma_values_named(parts: Seq<Seq<u8>>, n: int, name: Seq<char>)
    requires
        0 <= n,
    ensures
        values_named(parts, n, name).len() == 0 <==> is_absent(parts, n, name),
        values_named(parts, n, name).len() == 1 <==> exists|k: int| #[trigger]
            is_only(parts, n, name, k),
        forall|k: int| #[trigger]
            is_only(parts, n, name, k) ==> values_named(parts, n, name)[0] == parts[2 * k + 1],
    decreases n,
{
    if n > 0 {
        lemma_values_named(parts, n - 1, name);
        let before = values_named(parts, n - 1, name);
        let all = values_named(parts, n, name);
        let last = n - 1;
        if name_of(parts[2 * last]) == Some(name) {
            assert(!is_absent(parts, n, name));
            if before.len() == 0 {
                assert(is_only(parts, n, name, last));
                assert forall|k: int| #[trigger] is_only(parts, n, name, k) implies k == last by {
                    assert(name_of(parts[2 * last]) == Some(name));
                }
            } else {
                assert forall|k: int| !#[trigger] is_only(parts, n, name, k) by {
                    if is_only(parts, n, name, k) {
                        assert(name_of(parts[2 * last]) == Some(name));
                        assert(k == last);
                        assert(is_absent(parts, n - 1, name)) by {
                            assert forall|j: int| 0 <= j < n - 1 implies name_of(
                                #[trigger] parts[2 * j],
                            ) != Some(name) by {
                                if name_of(parts[2 * j]) == Some(name) {
                                    assert(j == k);
                                }
                            }
                        }
                    }
                }
            }
        } else {
            assert(is_absent(parts, n, name) <==> is_absent(parts, n - 1, name));
            assert forall|k: int| #[trigger] is_only(parts, n, name, k) <==> is_only(
                parts,
                n - 1,
                name,
                k,
            ) by {}
            if exists|k: int| #[trigger] is_only(parts, n - 1, name, k) {
                let k = choose|k: int| #[trigger] is_only(parts, n - 1, name, k);
                assert(is_only(parts, n, name, k));
            }
            if exists|k: int| #[trigger] is_only(parts, n, name, k) {
                let k = choose|k: int| #[trigger] is_only(parts, n, name, k);
                assert(is_only(parts, n - 1, name, k));
            }
        }
    }
}

/// An object is an envelope exactly where all its keys can be read, one alone
/// names the version, and one alone or none the data. What is found is the value
/// of the one and that of the other, or an empty object where there is none.
pub proof fn an_envelope_names_its_version_once(bytes: Seq<u8>)
    requires
        is_json(bytes),
        opening(bytes) == Some(OPEN_OBJECT),
    ensures
        ({
            let parts = parts_of(bytes);
            let n = parts.len() as int / 2;
            &&& short_form(bytes) is Some <==> (forall|k: int|
                0 <= k < n ==> name_of(#[trigger] parts[2 * k]) is Some) && (exists|k: int|
                #[trigger] is_only(parts, n, "v"@, k)) && (is_absent(parts, n, "d"@) || exists|
                k: int,
            |
                #[trigger] is_only(parts, n, "d"@, k))
            &&& forall|v: int|
                #[trigger] is_only(parts, n, "v"@, v) && short_form(bytes) is Some && is_absent(
                    parts,
                    n,
                    "d"@,
                ) ==> short_form(bytes) == Some(short(parts[2 * v + 1], no_data()))
            &&& forall|v: int, d: int|
                #[trigger] is_only(parts, n, "v"@, v) && #[trigger] is_only(parts, n, "d"@, d)
                    && short_form(bytes) is Some ==> short_form(bytes) == Some(
                    short(parts[2 * v + 1], parts[2 * d + 1]),
                )
        }),
{
    let parts = parts_of(bytes);
    let n = parts.len() as int / 2;
    lemma_values_named(parts, n, "v"@);
    lemma_values_named(parts, n, "d"@);
}

/// A list is an envelope where it has one item or two: the version, and the data
/// or none. Nothing but a list or an object is one, and nothing that is not JSON.
pub proof fn what_else_is_an_envelope(bytes: Seq<u8>)
    ensures
        !is_json(bytes) ==> short_form(bytes) is None,
        is_json(bytes) && opening(bytes) == Some(OPEN_LIST) ==> {
            let parts = parts_of(bytes);
            &&& short_form(bytes) is Some <==> 1 <= parts.len() <= 2
            &&& parts.len() == 1 ==> short_form(bytes) == Some(short(parts[0], no_data()))
            &&& parts.len() == 2 ==> short_form(bytes) == Some(short(parts[0], parts[1]))
        },
        opening(bytes) != Some(OPEN_LIST) && opening(bytes) != Some(OPEN_OBJECT) ==> short_form(
            bytes,
        ) is None,
{
}

} // verus!
