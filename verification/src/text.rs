//! Text as a sequence of characters.
//!
//! A `&str` is read as the characters it holds (`s@`), so every statement here
//! is about positions of characters, never about bytes.

use vstd::prelude::*;

verus! {

/// Appends one character, as `String::push` does.
#[verifier::external_body]
pub(crate) fn push_char(s: &mut String, c: char)
    ensures
        final(s)@ == old(s)@.push(c),
{
    s.push(c)
}

/// Compares two texts for equality, as `==` on `str` does: they are equal when
/// they hold the same characters.
#[verifier::external_body]
pub(crate) fn same(a: &str, b: &str) -> (r: bool)
    ensures
        r == (a@ == b@),
{
    a == b
}

/// The characters of a text, in order.
pub fn chars_of(s: &str) -> (r: Vec<char>)
    ensures
        r@ == s@,
{
    let mut out: Vec<char> = Vec::new();
    for c in it: s.chars()
        invariant
            it.seq() == s@,
            out@ == it.seq().take(it.index() as int),
    {
        out.push(c);
        assert(out@ =~= it.seq().take(it.index() as int + 1));
    }
    assert(out@ =~= s@);
    out
}

/// A text made of the given characters.
pub fn string_of(chars: &[char]) -> (r: String)
    ensures
        r@ == chars@,
{
    let mut out: String = String::new();
    let mut i: usize = 0;
    while i < chars.len()
        invariant
            i <= chars.len(),
            out@ == chars@.take(i as int),
        decreases chars.len() - i,
    {
        push_char(&mut out, chars[i]);
        i = i + 1;
        assert(out@ =~= chars@.take(i as int));
    }
    assert(out@ =~= chars@);
    out
}

/// A copy of a run of characters.
pub fn copy_chars(chars: &[char]) -> (r: Vec<char>)
    ensures
        r@ == chars@,
{
    let mut out: Vec<char> = Vec::new();
    let mut i: usize = 0;
    while i < chars.len()
        invariant
            i <= chars.len(),
            out@ == chars@.take(i as int),
        decreases chars.len() - i,
    {
        out.push(chars[i]);
        i = i + 1;
        assert(out@ =~= chars@.take(i as int));
    }
    assert(out@ =~= chars@);
    out
}

// ---------------------------------------------------------------------------
// Texts in lists and options
// ---------------------------------------------------------------------------

/// What a list of texts holds.
pub open spec fn texts(v: Seq<String>) -> Seq<Seq<char>> {
    Seq::new(v.len(), |i: int| v[i]@)
}

/// What an optional text holds.
pub open spec fn optional_text(o: Option<String>) -> Option<Seq<char>> {
    match o {
        Some(s) => Some(s@),
        None => None,
    }
}

/// What an optional borrowed text holds.
pub open spec fn optional_str(o: Option<&str>) -> Option<Seq<char>> {
    match o {
        Some(s) => Some(s@),
        None => None,
    }
}

pub proof fn lemma_texts_push(v: Seq<String>, s: String)
    ensures
        texts(v.push(s)) == texts(v).push(s@),
{
    assert(texts(v.push(s)) =~= texts(v).push(s@));
}

/// Whether two optional texts hold the same.
pub fn same_optional(a: &Option<String>, b: &Option<String>) -> (r: bool)
    ensures
        r == (optional_text(*a) == optional_text(*b)),
{
    match (a, b) {
        (Some(x), Some(y)) => same(x.as_str(), y.as_str()),
        (None, None) => true,
        _ => false,
    }
}

/// A copy of an optional text.
pub fn copy_optional(o: &Option<String>) -> (r: Option<String>)
    ensures
        optional_text(r) == optional_text(*o),
{
    match o {
        Some(s) => Some(s.clone()),
        None => None,
    }
}

/// A copy of a list of texts.
pub fn copy_texts(list: &[String]) -> (r: Vec<String>)
    ensures
        texts(r@) == texts(list@),
{
    let mut out: Vec<String> = Vec::new();
    let mut i: usize = 0;
    while i < list.len()
        invariant
            i <= list.len(),
            texts(out@) == texts(list@).take(i as int),
        decreases list.len() - i,
    {
        let s = list[i].clone();
        proof {
            lemma_texts_push(out@, s);
        }
        out.push(s);
        i = i + 1;
        assert(texts(out@) =~= texts(list@).take(i as int));
    }
    assert(texts(out@) =~= texts(list@));
    out
}

/// Where a text first stands in a list.
pub fn position_of(list: &[String], wanted: &str) -> (r: Option<usize>)
    ensures
        match r {
            Some(i) => i < list@.len() && list@[i as int]@ == wanted@ && forall|j: int|
                0 <= j < i ==> list@[j]@ != wanted@,
            None => forall|j: int| 0 <= j < list@.len() ==> list@[j]@ != wanted@,
        },
        r is Some <==> texts(list@).contains(wanted@),
{
    let mut i: usize = 0;
    while i < list.len()
        invariant
            i <= list.len(),
            forall|j: int| 0 <= j < i ==> list@[j]@ != wanted@,
        decreases list.len() - i,
    {
        if same(list[i].as_str(), wanted) {
            assert(texts(list@)[i as int] == wanted@);
            return Some(i);
        }
        i = i + 1;
    }
    assert(!texts(list@).contains(wanted@)) by {
        if texts(list@).contains(wanted@) {
            let j = choose|j: int| 0 <= j < texts(list@).len() && texts(list@)[j] == wanted@;
            assert(list@[j]@ == wanted@);
        }
    }
    None
}

/// Whether a list holds a text.
pub fn contains_text(list: &[String], wanted: &str) -> (r: bool)
    ensures
        r == texts(list@).contains(wanted@),
{
    position_of(list, wanted).is_some()
}

// ---------------------------------------------------------------------------
// White space
// ---------------------------------------------------------------------------

/// Which characters are taken off the ends of a text.
#[derive(Clone, Copy, PartialEq, Eq, Structural, Debug)]
pub enum Blank {
    /// The Unicode property `White_Space`.
    Unicode,
    /// What ECMAScript trims: U+FEFF counts and U+0085 does not.
    Ecma,
    /// The double quotation mark.
    Quote,
}

impl Blank {
    pub open spec fn holds(self, c: char) -> bool {
        let n = c as int;
        match self {
            Blank::Quote => n == 0x22,
            _ => {
                ||| 0x09 <= n <= 0x0D
                ||| n == 0x20
                ||| n == 0xA0
                ||| n == 0x1680
                ||| 0x2000 <= n <= 0x200A
                ||| n == 0x2028
                ||| n == 0x2029
                ||| n == 0x202F
                ||| n == 0x205F
                ||| n == 0x3000
                ||| self is Unicode && n == 0x85
                ||| self is Ecma && n == 0xFEFF
            },
        }
    }

    pub fn is(self, c: char) -> (r: bool)
        ensures
            r == self.holds(c),
    {
        let n: u32 = c as u32;
        let common = (0x09 <= n && n <= 0x0D) || n == 0x20 || n == 0xA0 || n == 0x1680 || (0x2000
            <= n && n <= 0x200A) || n == 0x2028 || n == 0x2029 || n == 0x202F || n == 0x205F || n
            == 0x3000;
        match self {
            Blank::Unicode => common || n == 0x85,
            Blank::Ecma => common || n == 0xFEFF,
            Blank::Quote => n == 0x22,
        }
    }
}

/// A text without the white space it begins with.
pub open spec fn trimmed_front(s: Seq<char>, kind: Blank) -> Seq<char>
    decreases s.len(),
{
    if s.len() > 0 && kind.holds(s[0]) {
        trimmed_front(s.skip(1), kind)
    } else {
        s
    }
}

/// A text without the white space it ends with.
pub open spec fn trimmed_back(s: Seq<char>, kind: Blank) -> Seq<char>
    decreases s.len(),
{
    if s.len() > 0 && kind.holds(s.last()) {
        trimmed_back(s.drop_last(), kind)
    } else {
        s
    }
}

/// A text without the white space around it.
pub open spec fn trimmed(s: Seq<char>, kind: Blank) -> Seq<char> {
    trimmed_back(trimmed_front(s, kind), kind)
}

/// The text holds nothing but white space.
pub open spec fn is_blank(s: Seq<char>, kind: Blank) -> bool {
    forall|i: int| 0 <= i < s.len() ==> kind.holds(#[trigger] s[i])
}

fn trim_front_chars(s: Vec<char>, kind: Blank) -> (r: Vec<char>)
    ensures
        r@ == trimmed_front(s@, kind),
{
    let mut from: usize = 0;
    assert(s@.skip(0) =~= s@);
    while from < s.len() && kind.is(s[from])
        invariant
            from <= s.len(),
            trimmed_front(s@, kind) == trimmed_front(s@.skip(from as int), kind),
        decreases s.len() - from,
    {
        assert(s@.skip(from as int).skip(1) =~= s@.skip(from as int + 1));
        from = from + 1;
    }
    let r = copy_chars(&s[from..s.len()]);
    assert(r@ =~= s@.skip(from as int));
    r
}

fn trim_back_chars(s: Vec<char>, kind: Blank) -> (r: Vec<char>)
    ensures
        r@ == trimmed_back(s@, kind),
{
    let mut out = s;
    let mut left: usize = out.len();
    while left > 0 && kind.is(out[left - 1])
        invariant
            left == out@.len(),
            trimmed_back(s@, kind) == trimmed_back(out@, kind),
        decreases left,
    {
        let ghost before = out@;
        out.truncate(left - 1);
        assert(out@ =~= before.drop_last());
        left = left - 1;
    }
    out
}

pub fn trim(s: &str, kind: Blank) -> (r: String)
    ensures
        r@ == trimmed(s@, kind),
{
    let front = trim_front_chars(chars_of(s), kind);
    let both = trim_back_chars(front, kind);
    string_of(both.as_slice())
}

pub fn trim_back(s: &str, kind: Blank) -> (r: String)
    ensures
        r@ == trimmed_back(s@, kind),
{
    let out = trim_back_chars(chars_of(s), kind);
    string_of(out.as_slice())
}

/// Nothing is left of a text exactly when it held nothing but white space.
pub proof fn lemma_trimmed_empty(s: Seq<char>, kind: Blank)
    ensures
        trimmed(s, kind).len() == 0 <==> is_blank(s, kind),
    decreases s.len(),
{
    if s.len() > 0 && kind.holds(s[0]) {
        lemma_trimmed_empty(s.skip(1), kind);
        assert(is_blank(s, kind) <==> is_blank(s.skip(1), kind)) by {
            if is_blank(s.skip(1), kind) {
                assert forall|i: int| 0 <= i < s.len() implies kind.holds(#[trigger] s[i]) by {
                    if i > 0 {
                        assert(s.skip(1)[i - 1] == s[i]);
                    }
                }
            }
        }
    } else if s.len() > 0 {
        lemma_trimmed_back_keeps(s, kind);
    }
}

/// What does not begin with white space keeps its beginning.
proof fn lemma_trimmed_back_keeps(s: Seq<char>, kind: Blank)
    requires
        s.len() > 0,
        !kind.holds(s[0]),
    ensures
        trimmed_back(s, kind).len() > 0,
    decreases s.len(),
{
    if kind.holds(s.last()) {
        lemma_trimmed_back_keeps(s.drop_last(), kind);
    }
}

/// A trimmed text neither begins nor ends with white space.
pub proof fn lemma_trimmed_ends(s: Seq<char>, kind: Blank)
    ensures
        trimmed(s, kind).len() > 0 ==> !kind.holds(trimmed(s, kind)[0]) && !kind.holds(
            trimmed(s, kind).last(),
        ),
    decreases s.len(),
{
    if s.len() > 0 && kind.holds(s[0]) {
        lemma_trimmed_ends(s.skip(1), kind);
    } else {
        lemma_trimmed_back_ends(s, kind);
    }
}

proof fn lemma_trimmed_back_ends(s: Seq<char>, kind: Blank)
    ensures
        trimmed_back(s, kind).len() > 0 ==> trimmed_back(s, kind)[0] == s[0] && !kind.holds(
            trimmed_back(s, kind).last(),
        ),
    decreases s.len(),
{
    if s.len() > 0 && kind.holds(s.last()) {
        lemma_trimmed_back_ends(s.drop_last(), kind);
    }
}

// ---------------------------------------------------------------------------
// Letters
// ---------------------------------------------------------------------------

/// A character with an ASCII lower-case letter made upper-case.
pub open spec fn upper(c: char) -> char {
    if 'a' <= c && c <= 'z' {
        (c as u8 - 32) as char
    } else {
        c
    }
}

/// A character with an ASCII upper-case letter made lower-case.
pub open spec fn lower(c: char) -> char {
    if 'A' <= c && c <= 'Z' {
        (c as u8 + 32) as char
    } else {
        c
    }
}

pub open spec fn uppercase(s: Seq<char>) -> Seq<char> {
    s.map_values(|c: char| upper(c))
}

pub open spec fn lowercase(s: Seq<char>) -> Seq<char> {
    s.map_values(|c: char| lower(c))
}

pub fn upper_char(c: char) -> (r: char)
    ensures
        r == upper(c),
{
    if 'a' <= c && c <= 'z' {
        (c as u8 - 32) as char
    } else {
        c
    }
}

pub fn lower_char(c: char) -> (r: char)
    ensures
        r == lower(c),
{
    if 'A' <= c && c <= 'Z' {
        (c as u8 + 32) as char
    } else {
        c
    }
}

/// A text with its ASCII letters made upper-case.
pub fn ascii_upper(s: &str) -> (r: String)
    ensures
        r@ == uppercase(s@),
{
    let chars = chars_of(s);
    let mut out: String = String::new();
    let mut i: usize = 0;
    while i < chars.len()
        invariant
            i <= chars.len(),
            chars@ == s@,
            out@ == uppercase(s@.take(i as int)),
        decreases chars.len() - i,
    {
        push_char(&mut out, upper_char(chars[i]));
        i = i + 1;
        assert(out@ =~= uppercase(s@.take(i as int)));
    }
    assert(s@.take(i as int) =~= s@);
    out
}

/// A text with its ASCII letters made lower-case.
pub fn ascii_lower(s: &str) -> (r: String)
    ensures
        r@ == lowercase(s@),
{
    let chars = chars_of(s);
    let mut out: String = String::new();
    let mut i: usize = 0;
    while i < chars.len()
        invariant
            i <= chars.len(),
            chars@ == s@,
            out@ == lowercase(s@.take(i as int)),
        decreases chars.len() - i,
    {
        push_char(&mut out, lower_char(chars[i]));
        i = i + 1;
        assert(out@ =~= lowercase(s@.take(i as int)));
    }
    assert(s@.take(i as int) =~= s@);
    out
}

/// What `str::to_lowercase` makes of a text.
pub uninterp spec fn lowercased(s: Seq<char>) -> Seq<char>;

/// Lower-cases a text as a whole: `str::to_lowercase`, by the Unicode property
/// and the one rule that looks at a letter's neighbours. The answer is named
/// [`lowercased`].
#[verifier::external_body]
pub(crate) fn to_lowercase(s: &str) -> (r: String)
    ensures
        r@ == lowercased(s@),
{
    s.to_lowercase()
}

// ---------------------------------------------------------------------------
// Cutting and joining
// ---------------------------------------------------------------------------

/// The pieces between the separators, in order. A text without one is its own
/// only piece.
pub open spec fn split_on(s: Seq<char>, sep: char) -> Seq<Seq<char>>
    decreases s.len(),
{
    if s.len() == 0 {
        seq![Seq::<char>::empty()]
    } else {
        let before = split_on(s.drop_last(), sep);
        if s.last() == sep {
            before.push(Seq::empty())
        } else {
            before.drop_last().push(before.last().push(s.last()))
        }
    }
}

pub fn split(s: &str, sep: char) -> (r: Vec<String>)
    ensures
        texts(r@) == split_on(s@, sep),
        r@.len() > 0,
{
    let chars = chars_of(s);
    let mut parts: Vec<String> = Vec::new();
    let mut current: String = String::new();
    let mut i: usize = 0;
    assert(s@.take(0) =~= Seq::<char>::empty());
    assert(texts(parts@).push(current@) =~= split_on(s@.take(0), sep));
    while i < chars.len()
        invariant
            i <= chars.len(),
            chars@ == s@,
            texts(parts@).push(current@) == split_on(s@.take(i as int), sep),
        decreases chars.len() - i,
    {
        let c = chars[i];
        let ghost before = split_on(s@.take(i as int), sep);
        assert(s@.take(i as int + 1).drop_last() =~= s@.take(i as int));
        assert(before.drop_last() =~= texts(parts@));
        assert(before.last() == current@);
        if c == sep {
            proof {
                lemma_texts_push(parts@, current);
            }
            parts.push(current);
            current = String::new();
            assert(texts(parts@).push(current@) =~= before.push(Seq::empty()));
        } else {
            push_char(&mut current, c);
        }
        i = i + 1;
    }
    assert(s@.take(i as int) =~= s@);
    proof {
        lemma_texts_push(parts@, current);
    }
    parts.push(current);
    parts
}

/// The pieces joined, a separator between each two.
pub open spec fn joined(parts: Seq<Seq<char>>, sep: Seq<char>) -> Seq<char>
    decreases parts.len(),
{
    if parts.len() == 0 {
        Seq::empty()
    } else if parts.len() == 1 {
        parts[0]
    } else {
        joined(parts.drop_last(), sep) + sep + parts.last()
    }
}

pub fn join(parts: &[String], sep: &str) -> (r: String)
    ensures
        r@ == joined(texts(parts@), sep@),
{
    let mut out: String = String::new();
    let mut i: usize = 0;
    assert(texts(parts@).take(0) =~= Seq::empty());
    while i < parts.len()
        invariant
            i <= parts.len(),
            out@ == joined(texts(parts@).take(i as int), sep@),
        decreases parts.len() - i,
    {
        assert(texts(parts@).take(i as int + 1).drop_last() =~= texts(parts@).take(i as int));
        if i > 0 {
            out.append(sep);
        }
        out.append(parts[i].as_str());
        i = i + 1;
        assert(out@ =~= joined(texts(parts@).take(i as int), sep@));
    }
    assert(texts(parts@).take(i as int) =~= texts(parts@));
    out
}

/// The place a character first stands at.
pub open spec fn first_index(s: Seq<char>, c: char) -> Option<int>
    decreases s.len(),
{
    if s.len() == 0 {
        None
    } else {
        match first_index(s.drop_last(), c) {
            Some(i) => Some(i),
            None => if s.last() == c {
                Some(s.len() - 1)
            } else {
                None
            },
        }
    }
}

/// The place a character last stands at.
pub open spec fn last_index(s: Seq<char>, c: char) -> Option<int>
    decreases s.len(),
{
    if s.len() == 0 {
        None
    } else if s.last() == c {
        Some(s.len() - 1)
    } else {
        last_index(s.drop_last(), c)
    }
}

pub proof fn lemma_first_index(s: Seq<char>, c: char)
    ensures
        match first_index(s, c) {
            Some(i) => 0 <= i < s.len() && s[i] == c && forall|j: int| 0 <= j < i ==> s[j] != c,
            None => forall|j: int| 0 <= j < s.len() ==> s[j] != c,
        },
    decreases s.len(),
{
    if s.len() > 0 {
        lemma_first_index(s.drop_last(), c);
        assert forall|j: int| 0 <= j < s.len() - 1 implies s[j] == s.drop_last()[j] by {}
    }
}

pub proof fn lemma_last_index(s: Seq<char>, c: char)
    ensures
        match last_index(s, c) {
            Some(i) => 0 <= i < s.len() && s[i] == c && forall|j: int|
                i < j < s.len() ==> s[j] != c,
            None => forall|j: int| 0 <= j < s.len() ==> s[j] != c,
        },
    decreases s.len(),
{
    if s.len() > 0 && s.last() != c {
        lemma_last_index(s.drop_last(), c);
        assert forall|j: int| 0 <= j < s.len() - 1 implies s[j] == s.drop_last()[j] by {}
    }
}

pub fn find_char(s: &[char], c: char) -> (r: Option<usize>)
    ensures
        match r {
            Some(i) => first_index(s@, c) == Some(i as int) && i < s@.len(),
            None => first_index(s@, c) is None,
        },
{
    proof {
        lemma_first_index(s@, c);
    }
    let mut i: usize = 0;
    while i < s.len()
        invariant
            i <= s.len(),
            forall|j: int| 0 <= j < i ==> s@[j] != c,
            match first_index(s@, c) {
                Some(i) => 0 <= i < s@.len() && s@[i] == c && forall|j: int|
                    0 <= j < i ==> s@[j] != c,
                None => forall|j: int| 0 <= j < s@.len() ==> s@[j] != c,
            },
        decreases s.len() - i,
    {
        if s[i] == c {
            return Some(i);
        }
        i = i + 1;
    }
    None
}

/// Whether a character occurs in a text.
pub fn contains_char(s: &str, c: char) -> (r: bool)
    ensures
        r == s@.contains(c),
{
    let chars = chars_of(s);
    proof {
        lemma_first_index(s@, c);
    }
    let found = find_char(chars.as_slice(), c).is_some();
    assert(found ==> s@.contains(s@[first_index(s@, c).unwrap()]));
    found
}

pub fn rfind_char(s: &[char], c: char) -> (r: Option<usize>)
    ensures
        match r {
            Some(i) => last_index(s@, c) == Some(i as int) && i < s@.len(),
            None => last_index(s@, c) is None,
        },
{
    proof {
        lemma_last_index(s@, c);
    }
    let mut left: usize = s.len();
    while left > 0
        invariant
            left <= s.len(),
            forall|j: int| left <= j < s@.len() ==> s@[j] != c,
            match last_index(s@, c) {
                Some(i) => 0 <= i < s@.len() && s@[i] == c && forall|j: int|
                    i < j < s@.len() ==> s@[j] != c,
                None => forall|j: int| 0 <= j < s@.len() ==> s@[j] != c,
            },
        decreases left,
    {
        if s[left - 1] == c {
            return Some(left - 1);
        }
        left = left - 1;
    }
    None
}

/// A text cut at the first separator.
pub open spec fn split_first(s: Seq<char>, sep: char) -> Option<(Seq<char>, Seq<char>)> {
    match first_index(s, sep) {
        Some(i) => Some((s.take(i), s.skip(i + 1))),
        None => None,
    }
}

pub fn split_once(s: &str, sep: char) -> (r: Option<(String, String)>)
    ensures
        match r {
            Some((a, b)) => split_first(s@, sep) == Some((a@, b@)),
            None => split_first(s@, sep) is None,
        },
{
    let chars = chars_of(s);
    match find_char(chars.as_slice(), sep) {
        Some(i) => {
            let a = string_of(&chars[0..i]);
            let b = string_of(&chars[i + 1..chars.len()]);
            assert(a@ =~= s@.take(i as int));
            assert(b@ =~= s@.skip(i as int + 1));
            Some((a, b))
        },
        None => None,
    }
}

/// `part` stands in `s` at `at`.
pub open spec fn stands_at(s: Seq<char>, part: Seq<char>, at: int) -> bool {
    0 <= at && at + part.len() <= s.len() && s.subrange(at, at + part.len()) == part
}

pub open spec fn starts_with(s: Seq<char>, part: Seq<char>) -> bool {
    stands_at(s, part, 0)
}

pub open spec fn ends_with(s: Seq<char>, part: Seq<char>) -> bool {
    stands_at(s, part, s.len() - part.len())
}

/// `part` stands somewhere in `s`.
pub open spec fn holds_text(s: Seq<char>, part: Seq<char>) -> bool {
    exists|at: int| stands_at(s, part, at)
}

pub fn is_at(s: &[char], part: &[char], at: usize) -> (r: bool)
    ensures
        r == stands_at(s@, part@, at as int),
{
    if at > s.len() || part.len() > s.len() - at {
        return false;
    }
    let mut i: usize = 0;
    while i < part.len()
        invariant
            i <= part.len(),
            at + part.len() <= s.len(),
            forall|j: int| 0 <= j < i ==> part@[j] == s@[at + j],
        decreases part.len() - i,
    {
        if s[at + i] != part[i] {
            assert(s@.subrange(at as int, at + part@.len())[i as int] != part@[i as int]);
            return false;
        }
        i = i + 1;
    }
    assert(s@.subrange(at as int, at + part@.len()) =~= part@);
    true
}

pub fn has_prefix(s: &str, part: &str) -> (r: bool)
    ensures
        r == starts_with(s@, part@),
{
    let a = chars_of(s);
    let b = chars_of(part);
    is_at(a.as_slice(), b.as_slice(), 0)
}

pub fn has_suffix(s: &str, part: &str) -> (r: bool)
    ensures
        r == ends_with(s@, part@),
{
    let a = chars_of(s);
    let b = chars_of(part);
    if b.len() > a.len() {
        return false;
    }
    is_at(a.as_slice(), b.as_slice(), a.len() - b.len())
}

/// Where `part` first stands in `s` at or after `from`.
pub fn find_from(s: &[char], part: &[char], from: usize) -> (r: Option<usize>)
    ensures
        match r {
            Some(i) => from <= i && stands_at(s@, part@, i as int) && forall|j: int|
                from <= j < i ==> !stands_at(s@, part@, j),
            None => forall|j: int| from <= j ==> !stands_at(s@, part@, j),
        },
{
    if part.len() > s.len() {
        return None;
    }
    let last: usize = s.len() - part.len();
    let mut i: usize = from;
    while i < last
        invariant
            from <= i,
            last == s.len() - part.len(),
            forall|j: int| from <= j < i ==> !stands_at(s@, part@, j),
        decreases last - i,
    {
        if is_at(s, part, i) {
            return Some(i);
        }
        i = i + 1;
    }
    if i == last && is_at(s, part, i) {
        return Some(i);
    }
    None
}

pub fn has_text(s: &str, part: &str) -> (r: bool)
    ensures
        r == holds_text(s@, part@),
{
    let a = chars_of(s);
    let b = chars_of(part);
    find_from(a.as_slice(), b.as_slice(), 0).is_some()
}

// ---------------------------------------------------------------------------
// Numbers
// ---------------------------------------------------------------------------

pub open spec fn is_digit(c: char) -> bool {
    '0' <= c && c <= '9'
}

pub open spec fn all_digits(s: Seq<char>) -> bool {
    forall|i: int| 0 <= i < s.len() ==> is_digit(#[trigger] s[i])
}

/// What a run of decimal digits counts.
pub open spec fn digits_value(s: Seq<char>) -> nat
    decreases s.len(),
{
    if s.len() == 0 {
        0
    } else {
        digits_value(s.drop_last()) * 10 + (s.last() as nat - '0' as nat) as nat
    }
}

/// A whole number without a minus sign: decimal digits, perhaps after a `+`.
pub open spec fn unsigned_in(s: Seq<char>) -> Option<nat> {
    let digits = if s.len() > 0 && s[0] == '+' {
        s.skip(1)
    } else {
        s
    };
    if digits.len() > 0 && all_digits(digits) {
        Some(digits_value(digits))
    } else {
        None
    }
}

/// A whole number: decimal digits, perhaps after a sign.
pub open spec fn signed_in(s: Seq<char>) -> Option<int> {
    if s.len() > 0 && s[0] == '-' {
        let digits = s.skip(1);
        if digits.len() > 0 && all_digits(digits) {
            Some(-(digits_value(digits) as int))
        } else {
            None
        }
    } else {
        match unsigned_in(s) {
            Some(n) => Some(n as int),
            None => None,
        }
    }
}

pub fn digit_char(c: char) -> (r: bool)
    ensures
        r == is_digit(c),
{
    '0' <= c && c <= '9'
}

proof fn lemma_digits_prefix(s: Seq<char>, i: int)
    requires
        0 <= i <= s.len(),
        all_digits(s),
    ensures
        digits_value(s.take(i)) <= digits_value(s),
    decreases s.len(),
{
    if i < s.len() {
        assert(s.drop_last().take(i) =~= s.take(i));
        lemma_digits_prefix(s.drop_last(), i);
    } else {
        assert(s.take(i) =~= s);
    }
}

/// The number a run of digits counts, when it is one and no larger than `max`.
pub(crate) fn digits_up_to(s: &[char], max: u64) -> (r: Option<u64>)
    requires
        max <= u32::MAX,
    ensures
        match r {
            Some(n) => s@.len() > 0 && all_digits(s@) && digits_value(s@) == n && n <= max,
            None => s@.len() == 0 || !all_digits(s@) || digits_value(s@) > max,
        },
{
    if s.len() == 0 {
        return None;
    }
    let mut i: usize = 0;
    while i < s.len()
        invariant
            i <= s.len(),
            forall|j: int| 0 <= j < i ==> is_digit(#[trigger] s@[j]),
        decreases s.len() - i,
    {
        if !digit_char(s[i]) {
            return None;
        }
        i = i + 1;
    }
    let mut n: u64 = 0;
    let mut k: usize = 0;
    while k < s.len()
        invariant
            k <= s.len(),
            max <= u32::MAX,
            n <= max,
            all_digits(s@),
            digits_value(s@.take(k as int)) == n,
        decreases s.len() - k,
    {
        let c = s[k];
        assert(is_digit(s@[k as int]));
        assert(s@.take(k as int + 1).drop_last() =~= s@.take(k as int));
        n = n * 10 + (c as u64 - '0' as u64);
        k = k + 1;
        if n > max {
            proof {
                lemma_digits_prefix(s@, k as int);
            }
            return None;
        }
    }
    assert(s@.take(k as int) =~= s@);
    Some(n)
}

/// Reads a whole number without a minus sign that is no larger than `max`.
pub fn parse_unsigned(s: &str, max: u64) -> (r: Option<u64>)
    requires
        max <= u32::MAX,
    ensures
        match r {
            Some(n) => unsigned_in(s@) == Some(n as nat) && n <= max,
            None => unsigned_in(s@) matches Some(n) ==> n > max,
        },
{
    let chars = chars_of(s);
    if chars.len() > 0 && chars[0] == '+' {
        let rest = &chars[1..chars.len()];
        assert(rest@ =~= s@.skip(1));
        digits_up_to(rest, max)
    } else {
        digits_up_to(chars.as_slice(), max)
    }
}

/// Reads a whole number between `min` and `max`.
pub fn parse_signed(s: &str, min: i64, max: i64) -> (r: Option<i64>)
    requires
        i32::MIN <= min <= 0 <= max <= i32::MAX,
    ensures
        match r {
            Some(n) => signed_in(s@) == Some(n as int) && min <= n <= max,
            None => signed_in(s@) matches Some(n) ==> n < min || n > max,
        },
{
    let chars = chars_of(s);
    if chars.len() > 0 && chars[0] == '-' {
        let rest = &chars[1..chars.len()];
        assert(rest@ =~= s@.skip(1));
        match digits_up_to(rest, (0 - min) as u64) {
            Some(n) => Some(0 - (n as i64)),
            None => None,
        }
    } else {
        match parse_unsigned(s, max as u64) {
            Some(n) => Some(n as i64),
            None => None,
        }
    }
}

/// The decimal digits of a number.
pub open spec fn decimal(n: nat) -> Seq<char>
    decreases n,
{
    if n < 10 {
        seq![('0' as u8 + n) as char]
    } else {
        decimal(n / 10).push(('0' as u8 + n % 10) as char)
    }
}

/// The decimal digits of a number, after a minus sign where it is negative.
pub open spec fn signed_decimal(n: int) -> Seq<char> {
    if n < 0 {
        seq!['-'] + decimal((-n) as nat)
    } else {
        decimal(n as nat)
    }
}

pub fn decimal_of(n: u64) -> (r: String)
    ensures
        r@ == decimal(n as nat),
    decreases n,
{
    if n < 10 {
        let mut out: String = String::new();
        push_char(&mut out, ('0' as u8 + n as u8) as char);
        assert(out@ =~= decimal(n as nat));
        out
    } else {
        let mut out = decimal_of(n / 10);
        push_char(&mut out, ('0' as u8 + (n % 10) as u8) as char);
        out
    }
}

pub fn signed_decimal_of(n: i64) -> (r: String)
    requires
        n > i64::MIN,
    ensures
        r@ == signed_decimal(n as int),
{
    if n < 0 {
        let mut out: String = String::new();
        push_char(&mut out, '-');
        let digits = decimal_of((0 - n) as u64);
        out.append(digits.as_str());
        assert(out@ =~= signed_decimal(n as int));
        out
    } else {
        decimal_of(n as u64)
    }
}

/// Writing a number and reading it back gives the number.
pub proof fn lemma_decimal_reads_back(n: nat)
    ensures
        decimal(n).len() > 0,
        all_digits(decimal(n)),
        digits_value(decimal(n)) == n,
        unsigned_in(decimal(n)) == Some(n),
    decreases n,
{
    let d = decimal(n);
    if n < 10 {
        assert(d.drop_last() =~= Seq::<char>::empty());
        assert(d.last() as nat == '0' as nat + n);
        assert(digits_value(d.drop_last()) == 0);
    } else {
        lemma_decimal_reads_back(n / 10);
        assert(d.last() as nat == '0' as nat + n % 10);
        assert(d.drop_last() =~= decimal(n / 10));
        assert forall|i: int| 0 <= i < d.len() implies is_digit(#[trigger] d[i]) by {
            if i < d.len() - 1 {
                assert(d[i] == decimal(n / 10)[i]);
            }
        }
    }
    assert(is_digit(d[0]));
}

// ---------------------------------------------------------------------------
// Cutting what was joined
// ---------------------------------------------------------------------------

/// What neither begins nor ends with white space is trimmed already.
pub proof fn lemma_trimmed_same(s: Seq<char>, kind: Blank)
    requires
        s.len() > 0 ==> !kind.holds(s[0]) && !kind.holds(s.last()),
    ensures
        trimmed(s, kind) == s,
{
}

/// A tail without the separator lengthens the last piece.
pub proof fn lemma_split_tail(a: Seq<char>, b: Seq<char>, sep: char)
    requires
        forall|i: int| 0 <= i < b.len() ==> #[trigger] b[i] != sep,
    ensures
        split_on(a, sep).len() > 0,
        split_on(a + b, sep) == split_on(a, sep).drop_last().push(split_on(a, sep).last() + b),
    decreases b.len(),
{
    lemma_split_some(a, sep);
    if b.len() == 0 {
        assert(a + b =~= a);
        assert(split_on(a, sep).last() + b =~= split_on(a, sep).last());
        assert(split_on(a, sep).drop_last().push(split_on(a, sep).last()) =~= split_on(a, sep));
    } else {
        let init = b.drop_last();
        assert forall|i: int| 0 <= i < init.len() implies #[trigger] init[i] != sep by {
            assert(b[i] != sep);
        }
        lemma_split_tail(a, init, sep);
        assert((a + b).drop_last() =~= a + init);
        assert(b[b.len() - 1] != sep);
        let before = split_on(a + init, sep);
        assert(before.last() == split_on(a, sep).last() + init);
        assert((split_on(a, sep).last() + init).push(b.last()) =~= split_on(a, sep).last() + b);
        assert(before.drop_last() =~= split_on(a, sep).drop_last());
    }
}

/// There is always a piece.
pub proof fn lemma_split_some(s: Seq<char>, sep: char)
    ensures
        split_on(s, sep).len() > 0,
    decreases s.len(),
{
    if s.len() > 0 {
        lemma_split_some(s.drop_last(), sep);
    }
}

/// A text without the separator is its own only piece.
pub proof fn lemma_split_whole(s: Seq<char>, sep: char)
    requires
        forall|i: int| 0 <= i < s.len() ==> #[trigger] s[i] != sep,
    ensures
        split_on(s, sep) == seq![s],
{
    let none = Seq::<char>::empty();
    lemma_split_tail(none, s, sep);
    assert(none + s =~= s);
    assert(split_on(none, sep) =~= seq![none]);
    assert(split_on(s, sep) =~= seq![s]);
}

/// Two texts with a separator between them give the pieces of both.
pub proof fn lemma_split_concat(a: Seq<char>, b: Seq<char>, sep: char)
    ensures
        split_on(a + seq![sep] + b, sep) == split_on(a, sep) + split_on(b, sep),
    decreases b.len(),
{
    let s = a + seq![sep] + b;
    let x = split_on(a, sep);
    if b.len() == 0 {
        assert(s.drop_last() =~= a);
        assert(split_on(s, sep) =~= x + split_on(b, sep));
    } else {
        let front = b.drop_last();
        let y = split_on(front, sep);
        assert(s.drop_last() =~= a + seq![sep] + front);
        lemma_split_concat(a, front, sep);
        lemma_split_some(front, sep);
        if b.last() == sep {
            assert((x + y).push(Seq::empty()) =~= x + y.push(Seq::empty()));
        } else {
            assert((x + y).drop_last() =~= x + y.drop_last());
            assert((x + y).last() == y.last());
            let piece = y.last().push(b.last());
            assert((x + y.drop_last()).push(piece) =~= x + y.drop_last().push(piece));
        }
    }
}

/// The pieces of a text, joined, are the text.
pub proof fn lemma_joined_split(s: Seq<char>, sep: char)
    ensures
        joined(split_on(s, sep), seq![sep]) == s,
    decreases s.len(),
{
    if s.len() == 0 {
        assert(joined(split_on(s, sep), seq![sep]) =~= s);
    } else {
        let front = s.drop_last();
        let before = split_on(front, sep);
        lemma_joined_split(front, sep);
        lemma_split_some(front, sep);
        let after = split_on(s, sep);
        if s.last() == sep {
            assert(after.drop_last() =~= before);
            assert(joined(after, seq![sep]) =~= front + seq![sep]);
        } else {
            assert(after.drop_last() =~= before.drop_last());
            if before.len() == 1 {
                assert(joined(after, seq![sep]) =~= before[0].push(s.last()));
            } else {
                assert(joined(after, seq![sep]) =~= joined(before, seq![sep]).push(s.last()));
            }
        }
        assert(front.push(s.last()) =~= s);
    }
}

/// No piece of a text holds the separator.
pub proof fn lemma_split_pieces(s: Seq<char>, sep: char)
    ensures
        forall|k: int, i: int|
            0 <= k < split_on(s, sep).len() && 0 <= i < split_on(s, sep)[k].len()
                ==> #[trigger] split_on(s, sep)[k][i] != sep,
    decreases s.len(),
{
    if s.len() > 0 {
        let before = split_on(s.drop_last(), sep);
        let after = split_on(s, sep);
        lemma_split_pieces(s.drop_last(), sep);
        lemma_split_some(s.drop_last(), sep);
        assert forall|k: int, i: int|
            0 <= k < after.len() && 0 <= i < after[k].len() implies #[trigger] after[k][i]
            != sep by {
            if s.last() == sep {
                if k < before.len() {
                    assert(after[k][i] == before[k][i]);
                }
            } else if k < before.len() - 1 {
                assert(after[k][i] == before[k][i]);
            } else if i < before.last().len() {
                assert(after[k][i] == before[k][i]);
            }
        }
    }
}

/// Every character of a piece is one of the text.
pub proof fn lemma_split_chars(s: Seq<char>, sep: char)
    ensures
        forall|k: int, i: int|
            0 <= k < split_on(s, sep).len() && 0 <= i < split_on(s, sep)[k].len() ==> s.contains(
                #[trigger] split_on(s, sep)[k][i],
            ),
    decreases s.len(),
{
    if s.len() > 0 {
        let front = s.drop_last();
        let before = split_on(front, sep);
        let after = split_on(s, sep);
        lemma_split_chars(front, sep);
        lemma_split_some(front, sep);
        assert forall|k: int, i: int|
            0 <= k < after.len() && 0 <= i < after[k].len() implies s.contains(
            #[trigger] after[k][i],
        ) by {
            if k < before.len() && i < before[k].len() {
                assert(after[k][i] == before[k][i]);
                let c = before[k][i];
                let m = choose|m: int| 0 <= m < front.len() && front[m] == c;
                assert(s[m] == c);
            } else {
                assert(s[s.len() - 1] == s.last());
            }
        }
    }
}

/// Cutting a joined text at the separator gives the pieces back, where none of
/// them holds it.
pub proof fn lemma_split_joined(parts: Seq<Seq<char>>, sep: char)
    requires
        parts.len() > 0,
        forall|k: int, i: int|
            0 <= k < parts.len() && 0 <= i < parts[k].len() ==> #[trigger] parts[k][i] != sep,
    ensures
        split_on(joined(parts, seq![sep]), sep) == parts,
    decreases parts.len(),
{
    let last = parts.last();
    assert forall|i: int| 0 <= i < last.len() implies #[trigger] last[i] != sep by {
        assert(parts[parts.len() - 1][i] != sep);
    }
    if parts.len() == 1 {
        lemma_split_whole(parts[0], sep);
        assert(parts =~= seq![parts[0]]);
    } else {
        let before = parts.drop_last();
        assert forall|k: int, i: int|
            0 <= k < before.len() && 0 <= i < before[k].len() implies #[trigger] before[k][i]
            != sep by {
            assert(parts[k][i] != sep);
        }
        lemma_split_joined(before, sep);
        let head = joined(before, seq![sep]);
        let cut = head + seq![sep];
        assert(cut.drop_last() =~= head);
        assert(split_on(cut, sep) == split_on(head, sep).push(Seq::empty()));
        lemma_split_tail(cut, last, sep);
        assert(Seq::<char>::empty() + last =~= last);
        assert(split_on(cut, sep).drop_last() =~= before);
        assert(before.push(last) =~= parts);
    }
}

/// Zeros before the digits count nothing.
pub proof fn lemma_leading_zeros(zeros: Seq<char>, digits: Seq<char>)
    requires
        forall|i: int| 0 <= i < zeros.len() ==> #[trigger] zeros[i] == '0',
    ensures
        digits_value(zeros + digits) == digits_value(digits),
    decreases digits.len() + zeros.len(),
{
    let all = zeros + digits;
    if digits.len() > 0 {
        assert(all.drop_last() =~= zeros + digits.drop_last());
        lemma_leading_zeros(zeros, digits.drop_last());
    } else if zeros.len() > 0 {
        let fewer = zeros.drop_last();
        assert forall|i: int| 0 <= i < fewer.len() implies #[trigger] fewer[i] == '0' by {
            assert(zeros[i] == '0');
        }
        assert(all.drop_last() =~= fewer + digits);
        lemma_leading_zeros(fewer, digits);
        assert(zeros[zeros.len() - 1] == '0');
    } else {
        assert(all =~= digits);
    }
}

// ---------------------------------------------------------------------------
// The order by code points
// ---------------------------------------------------------------------------

/// `a` comes before `b` by the code points of their characters.
pub open spec fn precedes(a: Seq<char>, b: Seq<char>) -> bool
    decreases a.len(),
{
    if b.len() == 0 {
        false
    } else if a.len() == 0 {
        true
    } else if a[0] != b[0] {
        a[0] < b[0]
    } else {
        precedes(a.skip(1), b.skip(1))
    }
}

/// Whether `a` comes before `b` by code points, as `<` on `str` has it.
pub fn text_before(a: &str, b: &str) -> (r: bool)
    ensures
        r == precedes(a@, b@),
{
    let x = chars_of(a);
    let y = chars_of(b);
    let mut i: usize = 0;
    assert(a@.skip(0) =~= a@);
    assert(b@.skip(0) =~= b@);
    while i < x.len() && i < y.len()
        invariant
            i <= x.len(),
            i <= y.len(),
            x@ == a@,
            y@ == b@,
            precedes(a@, b@) == precedes(a@.skip(i as int), b@.skip(i as int)),
        decreases x.len() - i,
    {
        if x[i] != y[i] {
            return x[i] < y[i];
        }
        assert(a@.skip(i as int).skip(1) =~= a@.skip(i as int + 1));
        assert(b@.skip(i as int).skip(1) =~= b@.skip(i as int + 1));
        i = i + 1;
    }
    i < y.len()
}

/// Of two different texts exactly one comes first, and none before itself.
pub proof fn lemma_precedes_total(a: Seq<char>, b: Seq<char>)
    ensures
        a == b ==> !precedes(a, b),
        a != b ==> precedes(a, b) != precedes(b, a),
    decreases a.len(),
{
    if a.len() > 0 && b.len() > 0 && a[0] == b[0] {
        lemma_precedes_total(a.skip(1), b.skip(1));
        if a.skip(1) == b.skip(1) {
            assert(a =~= seq![a[0]] + a.skip(1));
            assert(b =~= seq![b[0]] + b.skip(1));
        }
    } else if a.len() == 0 && b.len() == 0 {
        assert(a =~= b);
    }
}

/// Coming first carries over.
pub proof fn lemma_precedes_transitive(a: Seq<char>, b: Seq<char>, c: Seq<char>)
    requires
        precedes(a, b),
        precedes(b, c),
    ensures
        precedes(a, c),
    decreases a.len(),
{
    if a.len() > 0 && a[0] == b[0] && b[0] == c[0] {
        lemma_precedes_transitive(a.skip(1), b.skip(1), c.skip(1));
    }
}

// ---------------------------------------------------------------------------
// Parts of a text
// ---------------------------------------------------------------------------

/// The UTF-16 code units of a character.
pub open spec fn units_of_char(c: char) -> Seq<u32> {
    let n = c as int;
    if n < 0x10000 {
        seq![n as u32]
    } else {
        seq![
            (0xD800 + (n - 0x10000) / 0x400) as u32,
            (0xDC00 + (n - 0x10000) % 0x400) as u32,
        ]
    }
}

/// A text in UTF-16 code units.
pub open spec fn units_of(s: Seq<char>) -> Seq<u32>
    decreases s.len(),
{
    if s.len() == 0 {
        Seq::empty()
    } else {
        units_of(s.drop_last()) + units_of_char(s.last())
    }
}

/// Whether one list of units comes before another: the first difference
/// decides, and a list comes before any longer one it opens.
pub open spec fn units_precede(a: Seq<u32>, b: Seq<u32>) -> bool
    decreases a.len(),
{
    if b.len() == 0 {
        false
    } else if a.len() == 0 {
        true
    } else if a[0] != b[0] {
        a[0] < b[0]
    } else {
        units_precede(a.skip(1), b.skip(1))
    }
}

fn push_units(units: &mut Vec<u32>, c: char)
    ensures
        final(units)@ == old(units)@ + units_of_char(c),
{
    let ghost before = units@;
    let n: u32 = c as u32;
    if n < 0x10000 {
        units.push(n);
    } else {
        units.push(0xD800 + (n - 0x10000) / 0x400);
        units.push(0xDC00 + (n - 0x10000) % 0x400);
    }
    assert(units@ =~= before + units_of_char(c));
}

fn utf16_of(s: &str) -> (r: Vec<u32>)
    ensures
        r@ == units_of(s@),
{
    let chars = chars_of(s);
    let mut units: Vec<u32> = Vec::new();
    let mut i: usize = 0;
    while i < chars.len()
        invariant
            i <= chars.len(),
            chars@ == s@,
            units@ == units_of(s@.take(i as int)),
        decreases chars.len() - i,
    {
        assert(s@.take(i as int + 1).drop_last() =~= s@.take(i as int));
        push_units(&mut units, chars[i]);
        i = i + 1;
    }
    assert(s@.take(i as int) =~= s@);
    units
}

/// Whether `a` comes before `b` by UTF-16 code unit. This orders the characters
/// above U+FFFF differently from their code points.
pub fn units_before(a: &str, b: &str) -> (r: bool)
    ensures
        r == units_precede(units_of(a@), units_of(b@)),
{
    let x = utf16_of(a);
    let y = utf16_of(b);
    let mut i: usize = 0;
    assert(x@.skip(0) =~= x@);
    assert(y@.skip(0) =~= y@);
    while i < x.len() && i < y.len()
        invariant
            i <= x.len(),
            i <= y.len(),
            x@ == units_of(a@),
            y@ == units_of(b@),
            units_precede(x@, y@) == units_precede(x@.skip(i as int), y@.skip(i as int)),
        decreases x.len() - i,
    {
        if x[i] != y[i] {
            return x[i] < y[i];
        }
        assert(x@.skip(i as int).skip(1) =~= x@.skip(i as int + 1));
        assert(y@.skip(i as int).skip(1) =~= y@.skip(i as int + 1));
        i = i + 1;
    }
    i < y.len()
}

/// The place `part` first stands at.
pub open spec fn find_in(s: Seq<char>, part: Seq<char>) -> Option<int>
    decreases s.len(),
{
    if stands_at(s, part, 0) {
        Some(0)
    } else if s.len() == 0 {
        None
    } else {
        match find_in(s.skip(1), part) {
            Some(i) => Some(i + 1),
            None => None,
        }
    }
}

/// Standing at a place is standing at the front of what is left there.
pub proof fn lemma_stands_later(s: Seq<char>, part: Seq<char>, from: int, at: int)
    requires
        0 <= from <= s.len(),
        0 <= at,
    ensures
        stands_at(s.skip(from), part, at) == stands_at(s, part, from + at),
{
    if from + at + part.len() <= s.len() {
        assert(s.skip(from).subrange(at, at + part.len()) =~= s.subrange(
            from + at,
            from + at + part.len(),
        ));
    }
}

pub proof fn lemma_find_in(s: Seq<char>, part: Seq<char>)
    ensures
        match find_in(s, part) {
            Some(i) => 0 <= i <= s.len() && stands_at(s, part, i) && forall|j: int|
                0 <= j < i ==> !stands_at(s, part, j),
            None => forall|j: int| !stands_at(s, part, j),
        },
        find_in(s, part) is Some <==> holds_text(s, part),
    decreases s.len(),
{
    if !stands_at(s, part, 0) && s.len() > 0 {
        lemma_find_in(s.skip(1), part);
        assert forall|j: int| 0 < j implies stands_at(s, part, j) == stands_at(
            s.skip(1),
            part,
            j - 1,
        ) by {
            lemma_stands_later(s, part, 1, j - 1);
        }
    }
    if let Some(i) = find_in(s, part) {
        assert(stands_at(s, part, i));
    }
}

pub fn find_text(s: &[char], part: &[char]) -> (r: Option<usize>)
    ensures
        match r {
            Some(i) => find_in(s@, part@) == Some(i as int) && i + part@.len() <= s@.len(),
            None => find_in(s@, part@) is None,
        },
{
    proof {
        lemma_find_in(s@, part@);
    }
    find_from(s, part, 0)
}

/// A text cut at the first place `part` stands at.
pub open spec fn cut_at(s: Seq<char>, part: Seq<char>) -> Option<(Seq<char>, Seq<char>)> {
    match find_in(s, part) {
        Some(i) => Some((s.take(i), s.skip(i + part.len()))),
        None => None,
    }
}

pub fn cut_once(s: &str, part: &str) -> (r: Option<(String, String)>)
    ensures
        match r {
            Some((a, b)) => cut_at(s@, part@) == Some((a@, b@)),
            None => cut_at(s@, part@) is None,
        },
{
    let chars = chars_of(s);
    let wanted = chars_of(part);
    match find_text(chars.as_slice(), wanted.as_slice()) {
        Some(i) => {
            let end: usize = chars.len();
            let after: usize = i + wanted.len();
            let a = string_of(&chars[0..i]);
            let b = string_of(&chars[after..end]);
            assert(a@ =~= s@.take(i as int));
            assert(b@ =~= s@.skip(i as int + part@.len()));
            Some((a, b))
        },
        None => None,
    }
}

/// The text with every `part` in it, read from the front, replaced by `by`.
pub open spec fn replaced_all(s: Seq<char>, part: Seq<char>, by: Seq<char>) -> Seq<char>
    decreases s.len(),
{
    if s.len() == 0 || part.len() == 0 {
        s
    } else if stands_at(s, part, 0) {
        by + replaced_all(s.skip(part.len() as int), part, by)
    } else {
        seq![s[0]] + replaced_all(s.skip(1), part, by)
    }
}

pub fn replace_all(s: &str, part: &str, by: &str) -> (r: String)
    requires
        part@.len() > 0,
    ensures
        r@ == replaced_all(s@, part@, by@),
{
    let chars = chars_of(s);
    let wanted = chars_of(part);
    let mut out: String = String::new();
    let mut i: usize = 0;
    assert(s@.skip(0) =~= s@);
    assert(out@ + replaced_all(s@, part@, by@) =~= replaced_all(s@, part@, by@));
    while i < chars.len()
        invariant
            i <= chars.len(),
            chars@ == s@,
            wanted@ == part@,
            part@.len() > 0,
            out@ + replaced_all(s@.skip(i as int), part@, by@) == replaced_all(s@, part@, by@),
        decreases chars.len() - i,
    {
        let ghost rest = s@.skip(i as int);
        proof {
            lemma_stands_later(s@, part@, i as int, 0);
        }
        let ghost before = out@;
        if is_at(chars.as_slice(), wanted.as_slice(), i) {
            out.append(by);
            assert(rest.skip(part@.len() as int) =~= s@.skip(i + part@.len()));
            assert((before + by@) + replaced_all(rest.skip(part@.len() as int), part@, by@)
                =~= before + (by@ + replaced_all(rest.skip(part@.len() as int), part@, by@)));
            i = i + wanted.len();
        } else {
            push_char(&mut out, chars[i]);
            assert(rest.skip(1) =~= s@.skip(i + 1));
            assert(before.push(s@[i as int]) + replaced_all(rest.skip(1), part@, by@) =~= before
                + (seq![rest[0]] + replaced_all(rest.skip(1), part@, by@)));
            i = i + 1;
        }
    }
    assert(s@.skip(i as int) =~= Seq::empty());
    assert(out@ =~= out@ + replaced_all(s@.skip(i as int), part@, by@));
    out
}

/// How often a character stands in a text.
pub open spec fn count_of(s: Seq<char>, c: char) -> nat
    decreases s.len(),
{
    if s.len() == 0 {
        0
    } else {
        count_of(s.drop_last(), c) + if s.last() == c {
            1nat
        } else {
            0nat
        }
    }
}

pub fn count_char(s: &[char], c: char) -> (r: usize)
    ensures
        r == count_of(s@, c),
        r <= s@.len(),
{
    let mut n: usize = 0;
    let mut i: usize = 0;
    while i < s.len()
        invariant
            i <= s.len(),
            n <= i,
            n == count_of(s@.take(i as int), c),
        decreases s.len() - i,
    {
        assert(s@.take(i as int + 1).drop_last() =~= s@.take(i as int));
        if s[i] == c {
            n = n + 1;
        }
        i = i + 1;
    }
    assert(s@.take(i as int) =~= s@);
    n
}

/// A piece without the carriage return it may end with.
pub open spec fn without_return(piece: Seq<char>) -> Seq<char> {
    if piece.len() > 0 && piece.last() == '\r' {
        piece.drop_last()
    } else {
        piece
    }
}

/// The lines of a text, as `str::lines` has them: what stands before each line
/// feed, without a carriage return before that, and what follows the last one
/// where anything does.
pub open spec fn lines_of(s: Seq<char>) -> Seq<Seq<char>> {
    let pieces = split_on(s, '\n');
    let ended = pieces.drop_last().map_values(|p: Seq<char>| without_return(p));
    if pieces.last().len() == 0 {
        ended
    } else {
        ended.push(pieces.last())
    }
}

pub fn strip_return(piece: &str) -> (r: String)
    ensures
        r@ == without_return(piece@),
{
    let mut chars = chars_of(piece);
    let n: usize = chars.len();
    if n > 0 && chars[n - 1] == '\r' {
        chars.truncate(n - 1);
        assert(chars@ =~= piece@.drop_last());
    }
    string_of(chars.as_slice())
}

pub fn lines(s: &str) -> (r: Vec<String>)
    ensures
        texts(r@) == lines_of(s@),
{
    let pieces = split(s, '\n');
    let ghost all = texts(pieces@);
    let ghost ended = all.drop_last().map_values(|p: Seq<char>| without_return(p));
    let last: usize = pieces.len() - 1;
    let mut out: Vec<String> = Vec::new();
    let mut i: usize = 0;
    assert(texts(out@) =~= ended.take(0));
    while i < last
        invariant
            i <= last,
            last + 1 == pieces@.len(),
            all == texts(pieces@),
            ended == all.drop_last().map_values(|p: Seq<char>| without_return(p)),
            texts(out@) == ended.take(i as int),
        decreases last - i,
    {
        let line = strip_return(pieces[i].as_str());
        proof {
            lemma_texts_push(out@, line);
        }
        out.push(line);
        i = i + 1;
        assert(texts(out@) =~= ended.take(i as int));
    }
    assert(ended.take(i as int) =~= ended);
    assert(all.last() == pieces@[last as int]@);
    if !pieces[last].as_str().is_empty() {
        let line = pieces[last].clone();
        proof {
            lemma_texts_push(out@, line);
        }
        out.push(line);
    }
    out
}

/// How many bytes a text takes in UTF-8.
pub open spec fn byte_len(s: Seq<char>) -> usize {
    vstd::utf8::encode_utf8(s).len() as usize
}

/// A text that does not end in white space has a last line with something on
/// it.
pub proof fn lemma_last_piece(s: Seq<char>)
    requires
        s.len() > 0,
        !Blank::Unicode.holds(s.last()),
    ensures
        split_on(s, '\n').len() > 0,
        trimmed(split_on(s, '\n').last(), Blank::Unicode).len() > 0,
{
    lemma_split_some(s, '\n');
    let last = split_on(s, '\n').last();
    assert(last.last() == s.last());
    assert(last.len() > 0);
    lemma_trimmed_empty(last, Blank::Unicode);
    assert(!Blank::Unicode.holds(last[last.len() - 1]));
}

/// No line of the text ends in a carriage return.
pub open spec fn has_plain_breaks(s: Seq<char>) -> bool {
    forall|i: int| 0 <= i < s.len() - 1 && #[trigger] s[i] == '\r' ==> s[i + 1] != '\n'
}

/// The pieces of a text with plain line breaks do not end in a carriage return,
/// and the last one ends as the text does.
proof fn lemma_plain_pieces(s: Seq<char>)
    requires
        has_plain_breaks(s),
    ensures
        split_on(s, '\n').len() > 0,
        split_on(s, '\n').last().len() > 0 ==> s.len() > 0 && split_on(s, '\n').last().last()
            == s.last(),
        forall|k: int|
            0 <= k < split_on(s, '\n').len() - 1 ==> without_return(
                #[trigger] split_on(s, '\n')[k],
            ) == split_on(s, '\n')[k],
    decreases s.len(),
{
    if s.len() > 0 {
        let front = s.drop_last();
        assert forall|i: int| 0 <= i < front.len() - 1 && #[trigger] front[i] == '\r' implies front[i
            + 1] != '\n' by {
            assert(s[i] == '\r');
        }
        lemma_plain_pieces(front);
        let before = split_on(front, '\n');
        let after = split_on(s, '\n');
        if front.len() > 0 {
            assert(s[front.len() - 1] == front.last());
        }
        assert forall|k: int| 0 <= k < after.len() - 1 implies without_return(
            #[trigger] after[k],
        ) == after[k] by {
            assert(after[k] == before[k]);
            if k == before.len() - 1 {
                assert(before[k] == before.last());
            }
        }
    }
}

/// The lines of a text with plain line breaks that does not end in one are its
/// pieces.
pub proof fn lemma_lines(s: Seq<char>)
    requires
        s.len() > 0,
        s.last() != '\n',
        has_plain_breaks(s),
    ensures
        lines_of(s) == split_on(s, '\n'),
{
    let pieces = split_on(s, '\n');
    lemma_split_some(s.drop_last(), '\n');
    lemma_plain_pieces(s);
    assert(pieces.last().len() > 0);
    let front = pieces.drop_last();
    let ended = front.map_values(|p: Seq<char>| without_return(p));
    assert forall|k: int| 0 <= k < front.len() implies #[trigger] ended[k] == front[k] by {
        assert(without_return(pieces[k]) == pieces[k]);
    }
    assert(ended =~= front);
    assert(front.push(pieces.last()) =~= pieces);
}

} // verus!
