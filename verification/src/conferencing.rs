//! Find the online meeting in an event, whoever created it.
//!
//! Detection reads URLs and not prose: an invitation's words are translated
//! and edited, `j.php?MTID=` looks the same in every language. So does a SIP
//! address, and so does the DTMF sequence in a `tel:` link, which carries the
//! meeting number and the password:
//!
//! ```text
//! tel:+1-555-0100,,*01*25503113955%23626114%23*01*
//!                     └ meeting number ┘ └ pw ┘
//! ```
//!
//! A structured field is used when a provider gives one, and otherwise the
//! fields every calendar has are scanned.

use vstd::prelude::*;

use crate::text::{
    ascii_lower, byte_len, chars_of, count_char, count_of, cut_at, cut_once, digit_char, ends_with,
    find_in, find_text, first_index, has_prefix, has_suffix, has_text, holds_text, is_at, is_blank,
    is_digit, join, joined, last_index, lemma_find_in, lemma_first_index, lemma_joined_split,
    lemma_split_concat, lemma_split_joined, lemma_split_some, lemma_texts_push,
    lemma_trimmed_empty, lemma_trimmed_ends, lemma_trimmed_same, lines, lines_of, lowercase,
    optional_str, optional_text, replace_all, replaced_all, rfind_char, same, split, split_first,
    split_on, split_once, stands_at, starts_with, string_of, strip_return, texts, trim, trimmed,
    without_return, Blank,
};

verus! {

/// Which service a join link belongs to.
#[derive(Debug, Clone, Copy, PartialEq, Eq, Structural)]
pub enum ConferenceProvider {
    Webex,
    Teams,
    Zoom,
    GoogleMeet,
    Jitsi,
    GoToMeeting,
    BigBlueButton,
    Whereby,
    Other,
}

impl ConferenceProvider {
    /// The stable key of each provider.
    pub open spec fn key(self) -> Seq<char> {
        match self {
            ConferenceProvider::Webex => "webex"@,
            ConferenceProvider::Teams => "teams"@,
            ConferenceProvider::Zoom => "zoom"@,
            ConferenceProvider::GoogleMeet => "googleMeet"@,
            ConferenceProvider::Jitsi => "jitsi"@,
            ConferenceProvider::GoToMeeting => "goToMeeting"@,
            ConferenceProvider::BigBlueButton => "bigBlueButton"@,
            ConferenceProvider::Whereby => "whereby"@,
            ConferenceProvider::Other => "other"@,
        }
    }

    /// A stable key for i18n lookup.
    pub fn i18n_key(self) -> (r: &'static str)
        ensures
            r@ == self.key(),
    {
        match self {
            ConferenceProvider::Webex => "webex",
            ConferenceProvider::Teams => "teams",
            ConferenceProvider::Zoom => "zoom",
            ConferenceProvider::GoogleMeet => "googleMeet",
            ConferenceProvider::Jitsi => "jitsi",
            ConferenceProvider::GoToMeeting => "goToMeeting",
            ConferenceProvider::BigBlueButton => "bigBlueButton",
            ConferenceProvider::Whereby => "whereby",
            ConferenceProvider::Other => "other",
        }
    }
}

/// Where a link was found.
#[derive(Debug, Clone, Copy, PartialEq, Eq, Structural)]
pub enum ConferenceSource {
    /// A provider's own structured field. Nothing was guessed.
    ProviderField,
    /// RFC 7986 `CONFERENCE`.
    IcalendarConference,
    /// A vendor X-property.
    VendorProperty,
    /// The event's location field.
    Location,
    /// The event's description.
    Description,
}

/// An online meeting found in an event.
#[derive(Debug, Clone, PartialEq, Eq)]
pub struct ConferenceLink {
    pub join_url: String,
    pub provider: ConferenceProvider,
    pub source: ConferenceSource,
    /// The meeting number, from the SIP address or the DTMF sequence.
    pub meeting_number: Option<String>,
    /// The numeric password, from the DTMF sequence.
    pub password: Option<String>,
    /// A SIP address for a video system.
    pub sip_address: Option<String>,
    /// A dial-in number, as a `tel:` URI.
    pub phone: Option<String>,
    /// The `label: value` lines the invitation itself puts next to the link,
    /// with the labels exactly as they were written. A label is data: it is
    /// handed on, never understood.
    pub labelled_details: Vec<(String, String)>,
}

/// The fields a detector looks at, in the order it prefers them.
#[derive(Debug, Clone, PartialEq, Eq, Default)]
pub struct ConferenceSources<'a> {
    /// A join URL a provider stated outright.
    pub provider_field: Option<&'a str>,
    /// RFC 7986 `CONFERENCE` values, in the order they appeared.
    pub icalendar_conference: &'a [&'a str],
    /// Vendor X-property values.
    pub vendor_properties: &'a [&'a str],
    pub location: Option<&'a str>,
    pub description: Option<&'a str>,
}

// ---------------------------------------------------------------------------
// URLs in free text
// ---------------------------------------------------------------------------

/// A character no URL in text holds: white space, an angle bracket or a quote.
pub open spec fn ends_a_url(c: char) -> bool {
    Blank::Unicode.holds(c) || c == '<' || c == '>' || c == '"' || c == '\''
}

fn url_end(c: char) -> (r: bool)
    ensures
        r == ends_a_url(c),
{
    Blank::Unicode.is(c) || c == '<' || c == '>' || c == '"' || c == '\''
}

/// The beginning of a text up to the first character that ends a URL.
pub open spec fn url_run(s: Seq<char>) -> Seq<char>
    decreases s.len(),
{
    if s.len() == 0 || ends_a_url(s[0]) {
        Seq::empty()
    } else {
        seq![s[0]] + url_run(s.skip(1))
    }
}

/// Where the run that begins at `from` ends.
fn run_end(s: &[char], from: usize) -> (r: usize)
    requires
        from <= s@.len(),
    ensures
        from <= r <= s@.len(),
        s@.subrange(from as int, r as int) == url_run(s@.skip(from as int)),
{
    let mut i: usize = from;
    assert(s@.subrange(from as int, from as int) + url_run(s@.skip(from as int)) =~= url_run(
        s@.skip(from as int),
    ));
    while i < s.len() && !url_end(s[i])
        invariant
            from <= i <= s@.len(),
            s@.subrange(from as int, i as int) + url_run(s@.skip(i as int)) == url_run(
                s@.skip(from as int),
            ),
        decreases s.len() - i,
    {
        let ghost rest = s@.skip(i as int);
        assert(rest.skip(1) =~= s@.skip(i + 1));
        assert(s@.subrange(from as int, i + 1) + url_run(rest.skip(1)) =~= s@.subrange(
            from as int,
            i as int,
        ) + (seq![rest[0]] + url_run(rest.skip(1))));
        i = i + 1;
    }
    assert(url_run(s@.skip(i as int)) =~= Seq::empty());
    assert(s@.subrange(from as int, i as int) + Seq::<char>::empty() =~= s@.subrange(
        from as int,
        i as int,
    ));
    i
}

/// What a link ends with belongs to the sentence: punctuation, and a closing
/// bracket that was never opened in it.
pub open spec fn is_sentence_tail(url: Seq<char>) -> bool {
    &&& url.len() > 0
    &&& {
        let c = url.last();
        ||| c == '.' || c == ',' || c == ';' || c == ':' || c == '!' || c == '?'
        ||| c == ')' && count_of(url, '(') < count_of(url, ')')
        ||| c == ']' && count_of(url, '[') < count_of(url, ']')
    }
}

/// A URL without what belongs to the sentence round it.
pub open spec fn without_sentence(url: Seq<char>) -> Seq<char>
    decreases url.len(),
{
    if is_sentence_tail(url) {
        without_sentence(url.drop_last())
    } else {
        url
    }
}

/// A URL without the percent-encoded `>` that some mailers leave behind.
pub open spec fn without_bracket(url: Seq<char>) -> Seq<char> {
    if ends_with(url, "%3E"@) || ends_with(url, "%3e"@) {
        url.take(url.len() - 3)
    } else {
        url
    }
}

fn trim_sentence(url: Vec<char>) -> (r: Vec<char>)
    ensures
        r@ == without_sentence(url@),
{
    let mut out = url;
    let mut n: usize = out.len();
    loop
        invariant
            n == out@.len(),
            without_sentence(url@) == without_sentence(out@),
        decreases n,
    {
        if n == 0 {
            return out;
        }
        let c = out[n - 1];
        let tail = if c == '.' || c == ',' || c == ';' || c == ':' || c == '!' || c == '?' {
            true
        } else if c == ')' {
            count_char(out.as_slice(), '(') < count_char(out.as_slice(), ')')
        } else if c == ']' {
            count_char(out.as_slice(), '[') < count_char(out.as_slice(), ']')
        } else {
            false
        };
        if !tail {
            return out;
        }
        let ghost before = out@;
        out.truncate(n - 1);
        assert(out@ =~= before.drop_last());
        n = n - 1;
    }
}

fn trim_bracket(url: Vec<char>) -> (r: Vec<char>)
    ensures
        r@ == without_bracket(url@),
{
    proof {
        reveal_strlit("%3E");
        reveal_strlit("%3e");
    }
    let text = string_of(url.as_slice());
    if has_suffix(text.as_str(), "%3E") || has_suffix(text.as_str(), "%3e") {
        let mut out = url;
        let n: usize = out.len();
        out.truncate(n - 3);
        assert(out@ =~= url@.take(url@.len() - 3));
        out
    } else {
        url
    }
}

/// A link begins here.
pub open spec fn begins_a_link(s: Seq<char>) -> bool {
    starts_with(s, "http://"@) || starts_with(s, "https://"@)
}

/// The link that begins a text, trimmed.
pub open spec fn link_at(s: Seq<char>) -> Seq<char> {
    without_bracket(without_sentence(url_run(s)))
}

/// The links in a text, in order: each runs to the first character that cannot
/// be in one, and is trimmed of the sentence round it.
pub open spec fn urls_in(text: Seq<char>) -> Seq<Seq<char>>
    decreases text.len(),
    via urls_in_ends
{
    match find_in(text, "http"@) {
        None => Seq::empty(),
        Some(start) => {
            let tail = text.skip(start);
            if !begins_a_link(tail) {
                urls_in(text.skip(start + 4))
            } else {
                let url = link_at(tail);
                let rest = urls_in(tail.skip(url_run(tail).len() as int));
                if byte_len(url) > 8 {
                    seq![url] + rest
                } else {
                    rest
                }
            }
        },
    }
}

#[via_fn]
proof fn urls_in_ends(text: Seq<char>) {
    reveal_strlit("http");
    lemma_find_in(text, "http"@);
    if let Some(start) = find_in(text, "http"@) {
        let tail = text.skip(start);
        if begins_a_link(tail) {
            lemma_run_not_empty(tail);
            lemma_run_short(tail);
        }
    }
}

proof fn lemma_run_short(s: Seq<char>)
    ensures
        url_run(s).len() <= s.len(),
    decreases s.len(),
{
    if s.len() > 0 && !ends_a_url(s[0]) {
        lemma_run_short(s.skip(1));
    }
}

/// A link has at least its first letter.
proof fn lemma_run_not_empty(s: Seq<char>)
    requires
        begins_a_link(s),
    ensures
        url_run(s).len() > 0,
        s.len() > 0,
{
    reveal_strlit("http://");
    reveal_strlit("https://");
    assert(s[0] == 'h') by {
        if starts_with(s, "http://"@) {
            assert(s.subrange(0, 7)[0] == s[0]);
        } else {
            assert(s.subrange(0, 8)[0] == s[0]);
        }
    }
}

/// Pulls every http(s) URL out of free text, trimming what punctuation around
/// a link would otherwise glue on.
pub fn extract_urls(text: &str) -> (r: Vec<String>)
    ensures
        texts(r@) == urls_in(text@),
{
    let s = chars_of(text);
    let http = chars_of("http");
    let plain = chars_of("http://");
    let secure = chars_of("https://");
    let end: usize = s.len();
    let mut out: Vec<String> = Vec::new();
    let mut i: usize = 0;
    assert(text@.skip(0) =~= text@);
    assert(texts(out@) =~= Seq::empty());
    assert(texts(out@) + urls_in(text@) =~= urls_in(text@));
    loop
        invariant
            i <= end,
            end == s@.len(),
            s@ == text@,
            http@ == "http"@,
            plain@ == "http://"@,
            secure@ == "https://"@,
            texts(out@) + urls_in(text@.skip(i as int)) == urls_in(text@),
        decreases end - i,
    {
        let ghost rest = text@.skip(i as int);
        proof {
            reveal_strlit("http");
            lemma_find_in(rest, "http"@);
        }
        let tail = &s[i..end];
        assert(tail@ =~= rest);
        let rel = match find_text(tail, http.as_slice()) {
            Some(rel) => rel,
            None => {
                assert(texts(out@) + Seq::empty() =~= texts(out@));
                return out;
            },
        };
        let start: usize = i + rel;
        let ghost from = rest.skip(rel as int);
        assert(from =~= text@.skip(start as int));
        let here = &s[start..end];
        assert(here@ =~= from);
        if !(is_at(here, plain.as_slice(), 0) || is_at(here, secure.as_slice(), 0)) {
            assert(rest.skip(rel + 4) =~= text@.skip(start + 4));
            i = start + 4;
        } else {
            let stop = run_end(s.as_slice(), start);
            let run = crate::text::copy_chars(&s[start..stop]);
            assert(run@ =~= url_run(from));
            let url = trim_bracket(trim_sentence(run));
            let link = string_of(url.as_slice());
            assert(link@ == link_at(from));
            proof {
                lemma_run_not_empty(from);
            }
            assert(from.skip(url_run(from).len() as int) =~= text@.skip(stop as int));
            let ghost before = texts(out@);
            let ghost later = urls_in(text@.skip(stop as int));
            if link.as_str().len() > 8 {
                proof {
                    lemma_texts_push(out@, link);
                }
                out.push(link);
                assert(texts(out@) + later =~= before + (seq![link@] + later));
            }
            i = stop;
        }
    }
}

// ---------------------------------------------------------------------------
// Which service a URL belongs to
// ---------------------------------------------------------------------------

/// The host of a URL: what stands behind the scheme, up to a path, a query or
/// a fragment, without a user before it or a port behind it.
pub open spec fn host_in(url: Seq<char>) -> Option<Seq<char>> {
    match cut_at(url, "://"@) {
        None => None,
        Some((_, rest)) => {
            let place = split_on(split_on(split_on(rest, '/')[0], '?')[0], '#')[0];
            let host = match last_index(place, '@') {
                Some(i) => place.skip(i + 1),
                None => place,
            };
            Some(split_on(host, ':')[0])
        },
    }
}

/// The first piece of a text before a separator.
fn first_piece(s: &str, sep: char) -> (r: String)
    ensures
        r@ == split_on(s@, sep)[0],
{
    let pieces = split(s, sep);
    assert(texts(pieces@)[0] == pieces@[0]@);
    pieces[0].clone()
}

fn host_of(url: &str) -> (r: Option<String>)
    ensures
        optional_text(r) == host_in(url@),
{
    match cut_once(url, "://") {
        None => None,
        Some((_, rest)) => {
            let place = first_piece(
                first_piece(first_piece(rest.as_str(), '/').as_str(), '?').as_str(),
                '#',
            );
            let chars = chars_of(place.as_str());
            let end: usize = chars.len();
            let host = match rfind_char(chars.as_slice(), '@') {
                Some(i) => {
                    let after = string_of(&chars[i + 1..end]);
                    assert(after@ =~= place@.skip(i + 1));
                    after
                },
                None => place,
            };
            Some(first_piece(host.as_str(), ':'))
        },
    }
}

/// The service a URL in lower case belongs to, by its host, or nothing where it
/// is no join link. A dial-in listing, a recording and a bare site root live on
/// the same hosts and are none.
pub open spec fn provider_at(url: Seq<char>, host: Seq<char>) -> Option<ConferenceProvider> {
    if ends_with(host, "webex.com"@) || ends_with(host, "webex.com.cn"@) {
        if holds_text(url, "globalcallin.php"@) || holds_text(url, "/recordingservice/"@)
            || holds_text(url, "/playback/"@) {
            None
        } else if holds_text(url, "j.php?"@) || holds_text(url, "/meet/"@) || holds_text(
            url,
            "/join/"@,
        ) || holds_text(url, "/wbxmjs/joinservice/"@) {
            Some(ConferenceProvider::Webex)
        } else {
            None
        }
    } else if ends_with(host, "teams.microsoft.com"@) || ends_with(host, "teams.live.com"@) {
        if holds_text(url, "/l/meetup-join/"@) {
            Some(ConferenceProvider::Teams)
        } else {
            None
        }
    } else if ends_with(host, "zoom.us"@) || ends_with(host, "zoom.com"@) || ends_with(
        host,
        "zoomgov.com"@,
    ) {
        if holds_text(url, "/j/"@) || holds_text(url, "/my/"@) || holds_text(url, "/w/"@) {
            Some(ConferenceProvider::Zoom)
        } else {
            None
        }
    } else if host == "meet.google.com"@ {
        Some(ConferenceProvider::GoogleMeet)
    } else if host == "meet.jit.si"@ || ends_with(host, ".jit.si"@) {
        Some(ConferenceProvider::Jitsi)
    } else if ends_with(host, "gotomeeting.com"@) || ends_with(host, "goto.com"@) {
        if holds_text(url, "/join/"@) {
            Some(ConferenceProvider::GoToMeeting)
        } else {
            None
        }
    } else if ends_with(host, "whereby.com"@) {
        Some(ConferenceProvider::Whereby)
    } else if holds_text(url, "/bigbluebutton/api/join"@) || holds_text(url, "/b/"@) && holds_text(
        url,
        "bbb"@,
    ) {
        Some(ConferenceProvider::BigBlueButton)
    } else {
        None
    }
}

/// The service a URL belongs to, read without regard to case.
pub open spec fn provider_of(url: Seq<char>) -> Option<ConferenceProvider> {
    let lower = lowercase(url);
    match host_in(lower) {
        Some(host) => provider_at(lower, host),
        None => None,
    }
}

/// Decides which service a URL belongs to, or `None` when it is not a join
/// link at all.
pub fn classify(url: &str) -> (r: Option<ConferenceProvider>)
    ensures
        r == provider_of(url@),
{
    let lower = ascii_lower(url);
    let u = lower.as_str();
    let host = match host_of(u) {
        Some(host) => host,
        None => {
            return None;
        },
    };
    let h = host.as_str();
    if has_suffix(h, "webex.com") || has_suffix(h, "webex.com.cn") {
        if has_text(u, "globalcallin.php") || has_text(u, "/recordingservice/") || has_text(
            u,
            "/playback/",
        ) {
            None
        } else if has_text(u, "j.php?") || has_text(u, "/meet/") || has_text(u, "/join/")
            || has_text(u, "/wbxmjs/joinservice/") {
            Some(ConferenceProvider::Webex)
        } else {
            None
        }
    } else if has_suffix(h, "teams.microsoft.com") || has_suffix(h, "teams.live.com") {
        if has_text(u, "/l/meetup-join/") {
            Some(ConferenceProvider::Teams)
        } else {
            None
        }
    } else if has_suffix(h, "zoom.us") || has_suffix(h, "zoom.com") || has_suffix(
        h,
        "zoomgov.com",
    ) {
        if has_text(u, "/j/") || has_text(u, "/my/") || has_text(u, "/w/") {
            Some(ConferenceProvider::Zoom)
        } else {
            None
        }
    } else if same(h, "meet.google.com") {
        Some(ConferenceProvider::GoogleMeet)
    } else if same(h, "meet.jit.si") || has_suffix(h, ".jit.si") {
        Some(ConferenceProvider::Jitsi)
    } else if has_suffix(h, "gotomeeting.com") || has_suffix(h, "goto.com") {
        if has_text(u, "/join/") {
            Some(ConferenceProvider::GoToMeeting)
        } else {
            None
        }
    } else if has_suffix(h, "whereby.com") {
        Some(ConferenceProvider::Whereby)
    } else if has_text(u, "/bigbluebutton/api/join") || (has_text(u, "/b/") && has_text(
        u,
        "bbb",
    )) {
        Some(ConferenceProvider::BigBlueButton)
    } else {
        None
    }
}

// ---------------------------------------------------------------------------
// The block in a description
// ---------------------------------------------------------------------------

/// What labelled lines hold.
pub open spec fn pairs(v: Seq<(String, String)>) -> Seq<(Seq<char>, Seq<char>)> {
    Seq::new(v.len(), |i: int| (v[i].0@, v[i].1@))
}

/// The `Label: value` lines of a block, in order, each trimmed; one without a
/// label or without a value is left out.
pub open spec fn block_lines(lines: Seq<(Seq<char>, Seq<char>)>) -> Seq<Seq<char>>
    decreases lines.len(),
{
    if lines.len() == 0 {
        Seq::empty()
    } else {
        let before = block_lines(lines.drop_last());
        let (label, value) = lines.last();
        if is_blank(label, Blank::Unicode) || is_blank(value, Blank::Unicode) {
            before
        } else {
            before.push(
                trimmed(label, Blank::Unicode) + ": "@ + trimmed(value, Blank::Unicode),
            )
        }
    }
}

/// The block appended to an event's description when a meeting is created for
/// it: one `Label: value` line per fact, in plain text. Every fact gets its own
/// line, because [`without_meeting_block`] works line by line.
pub fn meeting_block(lines: &[(String, String)]) -> (r: String)
    ensures
        r@ == joined(block_lines(pairs(lines@)), "\n"@),
{
    let ghost all = pairs(lines@);
    let mut out: Vec<String> = Vec::new();
    let mut i: usize = 0;
    assert(texts(out@) =~= Seq::empty());
    while i < lines.len()
        invariant
            i <= lines.len(),
            all == pairs(lines@),
            texts(out@) == block_lines(all.take(i as int)),
        decreases lines.len() - i,
    {
        assert(all.take(i as int + 1).drop_last() =~= all.take(i as int));
        assert(all.take(i as int + 1).last() == (lines@[i as int].0@, lines@[i as int].1@));
        proof {
            lemma_trimmed_empty(lines@[i as int].0@, Blank::Unicode);
            lemma_trimmed_empty(lines@[i as int].1@, Blank::Unicode);
        }
        let label = trim(lines[i].0.as_str(), Blank::Unicode);
        let value = trim(lines[i].1.as_str(), Blank::Unicode);
        if !label.as_str().is_empty() && !value.as_str().is_empty() {
            let mut line = label;
            line.append(": ");
            line.append(value.as_str());
            proof {
                lemma_texts_push(out@, line);
            }
            out.push(line);
        }
        i = i + 1;
    }
    assert(all.take(i as int) =~= all);
    join(out.as_slice(), "\n")
}

/// A `Label: value` line: a label short enough to be one rather than a sentence
/// that happens to hold a colon, and a value. A bare link is none.
pub open spec fn detail_line(line: Seq<char>) -> bool {
    match split_first(trimmed(line, Blank::Unicode), ':') {
        None => false,
        Some((label, value)) => {
            &&& !is_blank(label, Blank::Unicode)
            &&& label.len() <= 40
            &&& !holds_text(label, "://"@)
            &&& !starts_with(value, "//"@)
            &&& !is_blank(value, Blank::Unicode)
        },
    }
}

fn is_detail_line(line: &str) -> (r: bool)
    ensures
        r == detail_line(line@),
{
    let t = trim(line, Blank::Unicode);
    match split_once(t.as_str(), ':') {
        None => false,
        Some((label, value)) => {
            proof {
                lemma_trimmed_empty(label@, Blank::Unicode);
                lemma_trimmed_empty(value@, Blank::Unicode);
            }
            let bare_label = trim(label.as_str(), Blank::Unicode);
            let bare_value = trim(value.as_str(), Blank::Unicode);
            !bare_label.as_str().is_empty() && chars_of(label.as_str()).len() <= 40 && !has_text(
                label.as_str(),
                "://",
            ) && !has_prefix(value.as_str(), "//") && !bare_value.as_str().is_empty()
        },
    }
}

/// How far a description has been gone through while the block of a link is
/// taken out of it.
pub struct Sweep {
    /// The lines that stay.
    pub kept: Seq<Seq<char>>,
    /// The blank lines since the last of them.
    pub run: Seq<Seq<char>>,
    /// Whether a line has gone since then.
    pub gap: bool,
    /// Whether the line before belonged to the block.
    pub in_block: bool,
}

impl Sweep {
    /// The lines that stay once another one follows. The blank lines around a
    /// gap are one run, of which the first is left, and none where nothing
    /// stands above it. Other blank lines are the user's own.
    pub open spec fn settled(self) -> Seq<Seq<char>> {
        if !self.gap {
            self.kept + self.run
        } else if self.kept.len() > 0 && self.run.len() > 0 {
            self.kept.push(self.run[0])
        } else {
            self.kept
        }
    }

    /// The lines that stay where none follows. The blank lines around a gap at
    /// the end go, and so does the line break above it.
    pub open spec fn ended(self) -> Seq<Seq<char>> {
        if !self.gap {
            self.kept + self.run
        } else if self.kept.len() > 0 {
            self.kept.drop_last().push(without_return(self.kept.last()))
        } else {
            Seq::empty()
        }
    }
}

/// The lines gone through: a line with the link goes, and so do the detail
/// lines that follow it.
pub open spec fn swept(lines: Seq<Seq<char>>, url: Seq<char>) -> Sweep
    decreases lines.len(),
{
    if lines.len() == 0 {
        Sweep { kept: Seq::empty(), run: Seq::empty(), gap: false, in_block: false }
    } else {
        let before = swept(lines.drop_last(), url);
        let line = lines.last();
        if (before.in_block && detail_line(line)) || holds_text(line, url) {
            Sweep { gap: true, in_block: true, ..before }
        } else if is_blank(line, Blank::Unicode) {
            Sweep { run: before.run.push(line), in_block: false, ..before }
        } else {
            Sweep {
                kept: before.settled().push(line),
                run: Seq::empty(),
                gap: false,
                in_block: false,
            }
        }
    }
}

/// A description without the block of a link. One that does not hold the link
/// stays as it is.
pub open spec fn without_block(description: Seq<char>, url: Seq<char>) -> Seq<char> {
    if url.len() == 0 || !holds_text(description, url) {
        description
    } else {
        joined(swept(split_on(description, '\n'), url).ended(), "\n"@)
    }
}

/// The lines and the blank ones after them, as far as they stay.
fn settle(kept: Vec<String>, run: &[String], gap: bool) -> (r: Vec<String>)
    ensures
        texts(r@) == (Sweep { kept: texts(kept@), run: texts(run@), gap, in_block: false }).settled(),
{
    let mut out = kept;
    let count: usize = if !gap {
        run.len()
    } else if out.len() > 0 && run.len() > 0 {
        1
    } else {
        0
    };
    let ghost above = texts(kept@);
    let mut i: usize = 0;
    assert(above + texts(run@).take(0) =~= above);
    while i < count
        invariant
            i <= count <= run.len(),
            texts(out@) == above + texts(run@).take(i as int),
        decreases count - i,
    {
        let line = run[i].clone();
        proof {
            lemma_texts_push(out@, line);
        }
        out.push(line);
        assert(above + texts(run@).take(i as int + 1) =~= (above + texts(run@).take(
            i as int,
        )).push(run@[i as int]@));
        i = i + 1;
    }
    proof {
        if !gap {
            assert(texts(run@).take(i as int) =~= texts(run@));
        } else if above.len() > 0 && run@.len() > 0 {
            assert(above + texts(run@).take(1) =~= above.push(texts(run@)[0]));
        } else {
            assert(above + texts(run@).take(0) =~= above);
        }
    }
    out
}

/// Removes the block [`meeting_block`] added, leaving the user's own text.
///
/// Matches on the JOIN URL rather than on the surrounding words: the URL is the
/// only part that has to survive unchanged for the meeting to work at all. Text
/// the user wrote before or after the block is untouched; of the blank lines
/// around the block one is left, and none at either end.
pub fn without_meeting_block(description: &str, join_url: &str) -> (r: String)
    ensures
        r@ == without_block(description@, join_url@),
{
    if join_url.is_empty() || !has_text(description, join_url) {
        return description.to_owned();
    }
    let all = split(description, '\n');
    let ghost whole = texts(all@);
    let mut kept: Vec<String> = Vec::new();
    let mut run: Vec<String> = Vec::new();
    let mut gap = false;
    let mut in_block = false;
    let mut i: usize = 0;
    assert(texts(kept@) =~= Seq::empty());
    assert(texts(run@) =~= Seq::empty());
    while i < all.len()
        invariant
            i <= all.len(),
            whole == texts(all@),
            swept(whole.take(i as int), join_url@) == (Sweep {
                kept: texts(kept@),
                run: texts(run@),
                gap,
                in_block,
            }),
        decreases all.len() - i,
    {
        assert(whole.take(i as int + 1).drop_last() =~= whole.take(i as int));
        assert(whole.take(i as int + 1).last() == all@[i as int]@);
        let line = all[i].as_str();
        if (in_block && is_detail_line(line)) || has_text(line, join_url) {
            gap = true;
            in_block = true;
        } else {
            proof {
                lemma_trimmed_empty(all@[i as int]@, Blank::Unicode);
            }
            let bare = trim(line, Blank::Unicode);
            let line = all[i].clone();
            if bare.as_str().is_empty() {
                proof {
                    lemma_texts_push(run@, line);
                }
                run.push(line);
            } else {
                kept = settle(kept, run.as_slice(), gap);
                proof {
                    lemma_texts_push(kept@, line);
                }
                kept.push(line);
                run = Vec::new();
                gap = false;
                assert(texts(run@) =~= Seq::empty());
            }
            in_block = false;
        }
        i = i + 1;
    }
    assert(whole.take(i as int) =~= whole);
    if !gap {
        let out = settle(kept, run.as_slice(), gap);
        return join(out.as_slice(), "\n");
    }
    let ghost above = texts(kept@);
    match kept.pop() {
        Some(last) => {
            let last = strip_return(last.as_str());
            assert(texts(kept@) =~= above.drop_last());
            proof {
                lemma_texts_push(kept@, last);
            }
            kept.push(last);
        },
        None => {},
    }
    join(kept.as_slice(), "\n")
}

// ---------------------------------------------------------------------------
// Details beside the link
// ---------------------------------------------------------------------------

/// The label and the value of a line that has them: both short, and the value
/// no link.
pub open spec fn labelled(line: Seq<char>) -> Option<(Seq<char>, Seq<char>)> {
    match split_first(trimmed(line, Blank::Unicode), ':') {
        None => None,
        Some((l, v)) => {
            let label = trimmed(l, Blank::Unicode);
            let value = trimmed(v, Blank::Unicode);
            if label.len() == 0 || value.len() == 0 || label.len() > 40 || value.len() > 60
                || starts_with(value, "//"@) || holds_text(value, "://"@) {
                None
            } else {
                Some((label, value))
            }
        },
    }
}

fn read_labelled(line: &str) -> (r: Option<(String, String)>)
    ensures
        match r {
            Some((label, value)) => labelled(line@) == Some((label@, value@)),
            None => labelled(line@) is None,
        },
{
    let t = trim(line, Blank::Unicode);
    match split_once(t.as_str(), ':') {
        None => None,
        Some((l, v)) => {
            let label = trim(l.as_str(), Blank::Unicode);
            let value = trim(v.as_str(), Blank::Unicode);
            let label_length: usize = chars_of(label.as_str()).len();
            let value_length: usize = chars_of(value.as_str()).len();
            if label_length == 0 || value_length == 0 || label_length > 40 || value_length > 60
                || has_prefix(value.as_str(), "//") || has_text(value.as_str(), "://") {
                None
            } else {
                Some((label, value))
            }
        },
    }
}

/// The first six labelled lines, in order.
pub open spec fn labelled_lines(lines: Seq<Seq<char>>) -> Seq<(Seq<char>, Seq<char>)>
    decreases lines.len(),
{
    if lines.len() == 0 {
        Seq::empty()
    } else {
        let before = labelled_lines(lines.drop_last());
        match labelled(lines.last()) {
            Some(pair) => if before.len() < 6 {
                before.push(pair)
            } else {
                before
            },
            None => before,
        }
    }
}

/// The labelled lines that follow the link in a description.
pub open spec fn labelled_near(description: Seq<char>, url: Seq<char>) -> Seq<
    (Seq<char>, Seq<char>),
> {
    let rest = match find_in(description, url) {
        Some(i) => description.skip(i + url.len()),
        None => description,
    };
    labelled_lines(lines_of(rest))
}

fn labelled_lines_near(description: &str, join_url: &str) -> (r: Vec<(String, String)>)
    ensures
        pairs(r@) == labelled_near(description@, join_url@),
{
    let rest = match cut_once(description, join_url) {
        Some((_, rest)) => rest,
        None => description.to_owned(),
    };
    let all = lines(rest.as_str());
    let ghost whole = texts(all@);
    let mut out: Vec<(String, String)> = Vec::new();
    let mut i: usize = 0;
    assert(pairs(out@) =~= Seq::empty());
    while i < all.len()
        invariant
            i <= all.len(),
            whole == texts(all@),
            out@.len() <= 6,
            pairs(out@) == labelled_lines(whole.take(i as int)),
        decreases all.len() - i,
    {
        assert(whole.take(i as int + 1).drop_last() =~= whole.take(i as int));
        assert(whole.take(i as int + 1).last() == all@[i as int]@);
        if out.len() < 6 {
            if let Some((label, value)) = read_labelled(all[i].as_str()) {
                let ghost before = pairs(out@);
                out.push((label, value));
                assert(pairs(out@) =~= before.push((label@, value@)));
            }
        }
        i = i + 1;
    }
    assert(whole.take(i as int) =~= whole);
    out
}

/// A character that ends a URI's sentence.
pub open spec fn is_uri_tail(c: char) -> bool {
    c == '.' || c == ',' || c == ';' || c == ':' || c == ')'
}

/// A URI without the punctuation it ends with.
pub open spec fn without_uri_tail(s: Seq<char>) -> Seq<char>
    decreases s.len(),
{
    if s.len() > 0 && is_uri_tail(s.last()) {
        without_uri_tail(s.drop_last())
    } else {
        s
    }
}

/// The first URI with this scheme in a text, read without regard to case, where
/// it holds more than the scheme.
pub open spec fn uri_in(text: Seq<char>, scheme: Seq<char>) -> Option<Seq<char>> {
    match find_in(lowercase(text), scheme) {
        None => None,
        Some(at) => {
            let uri = without_uri_tail(url_run(text.skip(at)));
            if uri.len() > scheme.len() {
                Some(uri)
            } else {
                None
            }
        },
    }
}

fn find_uri(text: &str, scheme: &str) -> (r: Option<String>)
    ensures
        optional_text(r) == uri_in(text@, scheme@),
{
    let lower = chars_of(ascii_lower(text).as_str());
    let wanted = chars_of(scheme);
    let at = match find_text(lower.as_slice(), wanted.as_slice()) {
        Some(at) => at,
        None => {
            return None;
        },
    };
    let s = chars_of(text);
    assert(s@.len() == lower@.len());
    let stop = run_end(s.as_slice(), at);
    let mut uri = crate::text::copy_chars(&s[at..stop]);
    assert(uri@ =~= url_run(text@.skip(at as int)));
    let ghost run = uri@;
    let mut n: usize = uri.len();
    loop
        invariant
            n == uri@.len(),
            without_uri_tail(run) == without_uri_tail(uri@),
        ensures
            uri@ == without_uri_tail(run),
        decreases n,
    {
        if n == 0 {
            break;
        }
        let c = uri[n - 1];
        if !(c == '.' || c == ',' || c == ';' || c == ':' || c == ')') {
            break;
        }
        let ghost before = uri@;
        uri.truncate(n - 1);
        assert(uri@ =~= before.drop_last());
        n = n - 1;
    }
    if uri.len() > wanted.len() {
        Some(string_of(uri.as_slice()))
    } else {
        None
    }
}

// ---------------------------------------------------------------------------
// Numbers in a dial-in link
// ---------------------------------------------------------------------------

/// The longer of two runs of digits; of two as long, the later.
pub open spec fn longer_run(best: Seq<char>, run: Seq<char>) -> Seq<char> {
    if run.len() >= best.len() {
        run
    } else {
        best
    }
}

/// The longest run of digits that has ended, and the run a text ends with.
pub open spec fn runs_in(s: Seq<char>) -> (Seq<char>, Seq<char>)
    decreases s.len(),
{
    if s.len() == 0 {
        (Seq::empty(), Seq::empty())
    } else {
        let (best, current) = runs_in(s.drop_last());
        if is_digit(s.last()) {
            (best, current.push(s.last()))
        } else if current.len() > 0 {
            (longer_run(best, current), Seq::empty())
        } else {
            (best, current)
        }
    }
}

/// The longest run of digits in a text; of several as long, the last. Nothing
/// where there is no digit.
pub open spec fn longest_run(s: Seq<char>) -> Seq<char> {
    let (best, current) = runs_in(s);
    if current.len() > 0 {
        longer_run(best, current)
    } else {
        best
    }
}

fn find_longest_run(s: &str) -> (r: Vec<char>)
    ensures
        r@ == longest_run(s@),
{
    let chars = chars_of(s);
    let mut best: Vec<char> = Vec::new();
    let mut current: Vec<char> = Vec::new();
    let mut i: usize = 0;
    while i < chars.len()
        invariant
            i <= chars.len(),
            chars@ == s@,
            runs_in(s@.take(i as int)) == (best@, current@),
        decreases chars.len() - i,
    {
        assert(s@.take(i as int + 1).drop_last() =~= s@.take(i as int));
        let c = chars[i];
        if digit_char(c) {
            current.push(c);
        } else if current.len() > 0 {
            if current.len() >= best.len() {
                best = current;
            }
            current = Vec::new();
            assert(current@ =~= Seq::empty());
        }
        i = i + 1;
    }
    assert(s@.take(i as int) =~= s@);
    if current.len() > 0 && current.len() >= best.len() {
        current
    } else {
        best
    }
}

/// The longest digit runs of the parts, those of four digits and more. The
/// tone markers round a number contribute shorter ones.
pub open spec fn useful_runs(parts: Seq<Seq<char>>) -> Seq<Seq<char>>
    decreases parts.len(),
{
    if parts.len() == 0 {
        Seq::empty()
    } else {
        let before = useful_runs(parts.drop_last());
        let run = longest_run(parts.last());
        if run.len() >= 4 {
            before.push(run)
        } else {
            before
        }
    }
}

/// A dial-in link with its encoded `#` and `*` decoded.
pub open spec fn decoded_tones(tel: Seq<char>) -> Seq<char> {
    replaced_all(replaced_all(replaced_all(tel, "%23"@, "#"@), "%2A"@, "*"@), "%2a"@, "*"@)
}

/// What a dial-in link plays after its first pause.
pub open spec fn tones_in(tel: Seq<char>) -> Option<Seq<char>> {
    match cut_at(decoded_tones(tel), ",,"@) {
        None => None,
        Some((_, rest)) => match cut_at(rest, ",,"@) {
            Some((payload, _)) => Some(payload),
            None => Some(rest),
        },
    }
}

/// The meeting number and the password of a dial-in link, each ended by `#`.
pub open spec fn numbers_in(tel: Seq<char>) -> (Option<Seq<char>>, Option<Seq<char>>) {
    match tones_in(tel) {
        None => (None, None),
        Some(payload) => {
            let runs = useful_runs(split_on(payload, '#'));
            (
                if runs.len() > 0 {
                    Some(runs[0])
                } else {
                    None
                },
                if runs.len() > 1 {
                    Some(runs[1])
                } else {
                    None
                },
            )
        },
    }
}

fn parse_dtmf(tel: &str) -> (r: (Option<String>, Option<String>))
    ensures
        (optional_text(r.0), optional_text(r.1)) == numbers_in(tel@),
{
    proof {
        reveal_strlit("%23");
        reveal_strlit("%2A");
        reveal_strlit("%2a");
    }
    let decoded = replace_all(
        replace_all(replace_all(tel, "%23", "#").as_str(), "%2A", "*").as_str(),
        "%2a",
        "*",
    );
    let payload = match cut_once(decoded.as_str(), ",,") {
        None => {
            return (None, None);
        },
        Some((_, rest)) => match cut_once(rest.as_str(), ",,") {
            Some((payload, _)) => payload,
            None => rest,
        },
    };
    let parts = split(payload.as_str(), '#');
    let ghost all = texts(parts@);
    let mut runs: Vec<String> = Vec::new();
    let mut i: usize = 0;
    assert(texts(runs@) =~= Seq::empty());
    while i < parts.len()
        invariant
            i <= parts.len(),
            all == texts(parts@),
            texts(runs@) == useful_runs(all.take(i as int)),
        decreases parts.len() - i,
    {
        assert(all.take(i as int + 1).drop_last() =~= all.take(i as int));
        assert(all.take(i as int + 1).last() == parts@[i as int]@);
        let run = find_longest_run(parts[i].as_str());
        if run.len() >= 4 {
            let run = string_of(run.as_slice());
            proof {
                lemma_texts_push(runs@, run);
            }
            runs.push(run);
        }
        i = i + 1;
    }
    assert(all.take(i as int) =~= all);
    assert(texts(runs@).len() == runs@.len());
    assert(runs@.len() > 0 ==> texts(runs@)[0] == runs@[0]@);
    assert(runs@.len() > 1 ==> texts(runs@)[1] == runs@[1]@);
    (
        if runs.len() > 0 {
            Some(runs[0].clone())
        } else {
            None
        },
        if runs.len() > 1 {
            Some(runs[1].clone())
        } else {
            None
        },
    )
}

// ---------------------------------------------------------------------------
// Details without prose
// ---------------------------------------------------------------------------

/// What is known of a meeting beside its link.
pub struct DetailsText {
    pub meeting_number: Option<Seq<char>>,
    pub password: Option<Seq<char>>,
    pub sip_address: Option<Seq<char>>,
    pub phone: Option<Seq<char>>,
}

/// A text without every `sip:` it begins with.
pub open spec fn without_schemes(s: Seq<char>) -> Seq<char>
    decreases s.len(),
{
    if s.len() >= 4 && starts_with(s, "sip:"@) {
        without_schemes(s.skip(4))
    } else {
        s
    }
}

/// The meeting number a SIP address names: its user, where that is digits.
pub open spec fn sip_number(sip: Seq<char>) -> Option<Seq<char>> {
    match split_first(without_schemes(sip), '@') {
        Some((user, _)) => if user.len() > 0 && crate::text::all_digits(user) {
            Some(user)
        } else {
            None
        },
        None => None,
    }
}

/// What a text's SIP address adds.
pub open spec fn with_sip(known: DetailsText, text: Seq<char>) -> DetailsText {
    if known.sip_address is Some {
        known
    } else {
        match uri_in(text, "sip:"@) {
            None => known,
            Some(sip) => DetailsText {
                meeting_number: match sip_number(sip) {
                    Some(n) => Some(n),
                    None => known.meeting_number,
                },
                sip_address: Some(sip),
                ..known
            },
        }
    }
}

/// What a text's dial-in link adds.
pub open spec fn with_phone(known: DetailsText, text: Seq<char>) -> DetailsText {
    if known.phone is Some {
        known
    } else {
        match uri_in(text, "tel:"@) {
            None => known,
            Some(tel) => {
                let (number, password) = numbers_in(tel);
                DetailsText {
                    meeting_number: if known.meeting_number is Some {
                        known.meeting_number
                    } else {
                        number
                    },
                    password: if known.password is Some {
                        known.password
                    } else {
                        password
                    },
                    phone: Some(tel),
                    ..known
                }
            },
        }
    }
}

/// What texts say of a meeting, the first to say something counting.
pub open spec fn details_in(texts: Seq<Seq<char>>) -> DetailsText
    decreases texts.len(),
{
    if texts.len() == 0 {
        DetailsText { meeting_number: None, password: None, sip_address: None, phone: None }
    } else {
        with_phone(with_sip(details_in(texts.drop_last()), texts.last()), texts.last())
    }
}

struct Details {
    meeting_number: Option<String>,
    password: Option<String>,
    sip_address: Option<String>,
    phone: Option<String>,
}

impl View for Details {
    type V = DetailsText;

    closed spec fn view(&self) -> DetailsText {
        DetailsText {
            meeting_number: optional_text(self.meeting_number),
            password: optional_text(self.password),
            sip_address: optional_text(self.sip_address),
            phone: optional_text(self.phone),
        }
    }
}

fn strip_schemes(s: &str) -> (r: String)
    ensures
        r@ == without_schemes(s@),
{
    proof {
        reveal_strlit("sip:");
    }
    let chars = chars_of(s);
    let scheme = chars_of("sip:");
    let end: usize = chars.len();
    let mut i: usize = 0;
    assert(s@.skip(0) =~= s@);
    loop
        invariant
            i <= end,
            end == chars@.len(),
            chars@ == s@,
            scheme@ == "sip:"@,
            scheme@.len() == 4,
            without_schemes(s@) == without_schemes(s@.skip(i as int)),
        decreases end - i,
    {
        proof {
            crate::text::lemma_stands_later(s@, "sip:"@, i as int, 0);
        }
        if end - i < 4 || !is_at(chars.as_slice(), scheme.as_slice(), i) {
            let r = string_of(&chars[i..end]);
            assert(r@ =~= s@.skip(i as int));
            return r;
        }
        assert(s@.skip(i as int).skip(4) =~= s@.skip(i + 4));
        i = i + 4;
    }
}

fn find_sip_number(sip: &str) -> (r: Option<String>)
    ensures
        optional_text(r) == sip_number(sip@),
{
    match split_once(strip_schemes(sip).as_str(), '@') {
        None => None,
        Some((user, _)) => {
            let chars = chars_of(user.as_str());
            if chars.len() == 0 {
                return None;
            }
            let mut i: usize = 0;
            while i < chars.len()
                invariant
                    i <= chars.len(),
                    chars@ == user@,
                    sip_number(sip@) == if user@.len() > 0 && crate::text::all_digits(user@) {
                        Some(user@)
                    } else {
                        None::<Seq<char>>
                    },
                    forall|j: int| 0 <= j < i ==> is_digit(#[trigger] chars@[j]),
                decreases chars.len() - i,
            {
                if !digit_char(chars[i]) {
                    assert(!is_digit(user@[i as int]));
                    return None;
                }
                i = i + 1;
            }
            Some(user)
        },
    }
}

fn add_sip(known: Details, text: &str) -> (r: Details)
    ensures
        r@ == with_sip(known@, text@),
{
    if known.sip_address.is_some() {
        return known;
    }
    match find_uri(text, "sip:") {
        None => known,
        Some(sip) => Details {
            meeting_number: match find_sip_number(sip.as_str()) {
                Some(n) => Some(n),
                None => known.meeting_number,
            },
            password: known.password,
            sip_address: Some(sip),
            phone: known.phone,
        },
    }
}

fn add_phone(known: Details, text: &str) -> (r: Details)
    ensures
        r@ == with_phone(known@, text@),
{
    if known.phone.is_some() {
        return known;
    }
    match find_uri(text, "tel:") {
        None => known,
        Some(tel) => {
            let (number, password) = parse_dtmf(tel.as_str());
            Details {
                meeting_number: if known.meeting_number.is_some() {
                    known.meeting_number
                } else {
                    number
                },
                password: if known.password.is_some() {
                    known.password
                } else {
                    password
                },
                sip_address: known.sip_address,
                phone: Some(tel),
            }
        },
    }
}

/// What borrowed texts hold.
pub open spec fn str_texts(v: Seq<&str>) -> Seq<Seq<char>> {
    Seq::new(v.len(), |i: int| v[i]@)
}

fn extract_details(all: &[&str]) -> (r: Details)
    ensures
        r@ == details_in(str_texts(all@)),
{
    let ghost whole = str_texts(all@);
    let mut details = Details {
        meeting_number: None,
        password: None,
        sip_address: None,
        phone: None,
    };
    let mut i: usize = 0;
    while i < all.len()
        invariant
            i <= all.len(),
            whole == str_texts(all@),
            details@ == details_in(whole.take(i as int)),
        decreases all.len() - i,
    {
        assert(whole.take(i as int + 1).drop_last() =~= whole.take(i as int));
        assert(whole.take(i as int + 1).last() == all@[i as int]@);
        let text = all[i];
        details = add_phone(add_sip(details, text), text);
        i = i + 1;
    }
    assert(whole.take(i as int) =~= whole);
    details
}

// ---------------------------------------------------------------------------
// Finding the meeting
// ---------------------------------------------------------------------------

/// What [`ConferenceSources`] hold.
pub struct SourceTexts {
    pub provider_field: Option<Seq<char>>,
    pub icalendar_conference: Seq<Seq<char>>,
    pub vendor_properties: Seq<Seq<char>>,
    pub location: Option<Seq<char>>,
    pub description: Option<Seq<char>>,
}

impl<'a> View for ConferenceSources<'a> {
    type V = SourceTexts;

    open spec fn view(&self) -> SourceTexts {
        SourceTexts {
            provider_field: optional_str(self.provider_field),
            icalendar_conference: str_texts(self.icalendar_conference@),
            vendor_properties: str_texts(self.vendor_properties@),
            location: optional_str(self.location),
            description: optional_str(self.description),
        }
    }
}

/// An optional text as a list.
pub open spec fn as_list(o: Option<Seq<char>>) -> Seq<Seq<char>> {
    match o {
        Some(s) => seq![s],
        None => Seq::empty(),
    }
}

/// The links of texts, in order.
pub open spec fn urls_of(texts: Seq<Seq<char>>) -> Seq<Seq<char>>
    decreases texts.len(),
{
    if texts.len() == 0 {
        Seq::empty()
    } else {
        urls_of(texts.drop_last()) + urls_in(texts.last())
    }
}

/// The join link among links: the longest in bytes, and of two as long the
/// first. Some join links nest a shorter-looking one.
pub open spec fn join_link(urls: Seq<Seq<char>>) -> Option<(Seq<char>, ConferenceProvider)>
    decreases urls.len(),
{
    if urls.len() == 0 {
        None
    } else {
        let best = join_link(urls.drop_last());
        match provider_of(urls.last()) {
            None => best,
            Some(provider) => if best is None || byte_len(urls.last()) > byte_len((best->0).0) {
                Some((urls.last(), provider))
            } else {
                best
            },
        }
    }
}

/// The texts of a source.
pub open spec fn source_texts(sources: SourceTexts, source: ConferenceSource) -> Seq<Seq<char>> {
    match source {
        ConferenceSource::ProviderField => as_list(sources.provider_field),
        ConferenceSource::IcalendarConference => sources.icalendar_conference,
        ConferenceSource::VendorProperty => sources.vendor_properties,
        ConferenceSource::Location => as_list(sources.location),
        ConferenceSource::Description => as_list(sources.description),
    }
}

/// The join link of a source.
pub open spec fn link_in(sources: SourceTexts, source: ConferenceSource) -> Option<
    (Seq<char>, ConferenceProvider),
> {
    join_link(urls_of(source_texts(sources, source)))
}

/// What a [`ConferenceLink`] holds.
pub struct LinkText {
    pub join_url: Seq<char>,
    pub provider: ConferenceProvider,
    pub source: ConferenceSource,
    pub details: DetailsText,
    pub labelled_details: Seq<(Seq<char>, Seq<char>)>,
}

impl View for ConferenceLink {
    type V = LinkText;

    open spec fn view(&self) -> LinkText {
        LinkText {
            join_url: self.join_url@,
            provider: self.provider,
            source: self.source,
            details: DetailsText {
                meeting_number: optional_text(self.meeting_number),
                password: optional_text(self.password),
                sip_address: optional_text(self.sip_address),
                phone: optional_text(self.phone),
            },
            labelled_details: pairs(self.labelled_details@),
        }
    }
}

/// What an optional link holds.
pub open spec fn optional_link(link: Option<ConferenceLink>) -> Option<LinkText> {
    match link {
        Some(l) => Some(l@),
        None => None,
    }
}

/// The meeting a link leads to. Its details come from all the fields, not just
/// the one the link came from.
pub open spec fn meeting_at(
    sources: SourceTexts,
    found: (Seq<char>, ConferenceProvider),
    source: ConferenceSource,
) -> LinkText {
    LinkText {
        join_url: found.0,
        provider: found.1,
        source,
        details: details_in(
            as_list(sources.provider_field) + as_list(sources.location) + as_list(
                sources.description,
            ),
        ),
        labelled_details: match sources.description {
            Some(d) => labelled_near(d, found.0),
            None => Seq::empty(),
        },
    }
}

/// The meeting in an event: the sources are tried in order of authority.
pub open spec fn conference_in(sources: SourceTexts) -> Option<LinkText> {
    if let Some(found) = link_in(sources, ConferenceSource::ProviderField) {
        Some(meeting_at(sources, found, ConferenceSource::ProviderField))
    } else if let Some(found) = link_in(sources, ConferenceSource::IcalendarConference) {
        Some(meeting_at(sources, found, ConferenceSource::IcalendarConference))
    } else if let Some(found) = link_in(sources, ConferenceSource::VendorProperty) {
        Some(meeting_at(sources, found, ConferenceSource::VendorProperty))
    } else if let Some(found) = link_in(sources, ConferenceSource::Location) {
        Some(meeting_at(sources, found, ConferenceSource::Location))
    } else if let Some(found) = link_in(sources, ConferenceSource::Description) {
        Some(meeting_at(sources, found, ConferenceSource::Description))
    } else {
        None
    }
}

fn optional_list<'a>(o: Option<&'a str>) -> (r: Vec<&'a str>)
    ensures
        str_texts(r@) == as_list(optional_str(o)),
{
    let mut out: Vec<&'a str> = Vec::new();
    if let Some(s) = o {
        out.push(s);
    }
    assert(str_texts(out@) =~= as_list(optional_str(o)));
    out
}

fn find_link(all: &[&str]) -> (r: Option<(String, ConferenceProvider)>)
    ensures
        match r {
            Some((url, provider)) => join_link(urls_of(str_texts(all@))) == Some(
                (url@, provider),
            ),
            None => join_link(urls_of(str_texts(all@))) is None,
        },
{
    let ghost whole = str_texts(all@);
    let mut urls: Vec<String> = Vec::new();
    let mut i: usize = 0;
    assert(texts(urls@) =~= Seq::empty());
    while i < all.len()
        invariant
            i <= all.len(),
            whole == str_texts(all@),
            texts(urls@) == urls_of(whole.take(i as int)),
        decreases all.len() - i,
    {
        assert(whole.take(i as int + 1).drop_last() =~= whole.take(i as int));
        assert(whole.take(i as int + 1).last() == all@[i as int]@);
        let mut more = extract_urls(all[i]);
        let ghost a = urls@;
        let ghost b = more@;
        urls.append(&mut more);
        assert(texts(urls@) =~= texts(a) + texts(b));
        i = i + 1;
    }
    assert(whole.take(i as int) =~= whole);
    let ghost list = texts(urls@);
    let mut best: Option<(String, ConferenceProvider)> = None;
    let mut k: usize = 0;
    while k < urls.len()
        invariant
            k <= urls.len(),
            list == texts(urls@),
            join_link(list.take(k as int)) == match best {
                Some((url, provider)) => Some((url@, provider)),
                None => None,
            },
        decreases urls.len() - k,
    {
        assert(list.take(k as int + 1).drop_last() =~= list.take(k as int));
        assert(list.take(k as int + 1).last() == urls@[k as int]@);
        if let Some(provider) = classify(urls[k].as_str()) {
            let better = match &best {
                None => true,
                Some((current, _)) => urls[k].as_str().len() > current.as_str().len(),
            };
            if better {
                best = Some((urls[k].clone(), provider));
            }
        }
        k = k + 1;
    }
    assert(list.take(k as int) =~= list);
    best
}

fn describe_meeting(
    sources: &ConferenceSources<'_>,
    join_url: String,
    provider: ConferenceProvider,
    source: ConferenceSource,
) -> (r: ConferenceLink)
    ensures
        r@ == meeting_at(sources@, (join_url@, provider), source),
{
    let mut all = optional_list(sources.provider_field);
    let mut location = optional_list(sources.location);
    let mut description = optional_list(sources.description);
    let ghost a = all@;
    let ghost b = location@;
    let ghost c = description@;
    all.append(&mut location);
    all.append(&mut description);
    assert(str_texts(all@) =~= str_texts(a) + str_texts(b) + str_texts(c));
    let details = extract_details(all.as_slice());
    let labelled_details = match sources.description {
        Some(d) => labelled_lines_near(d, join_url.as_str()),
        None => {
            let none: Vec<(String, String)> = Vec::new();
            assert(pairs(none@) =~= Seq::empty());
            none
        },
    };
    ConferenceLink {
        join_url,
        provider,
        source,
        meeting_number: details.meeting_number,
        password: details.password,
        sip_address: details.sip_address,
        phone: details.phone,
        labelled_details,
    }
}

/// Finds the meeting, or decides there is none.
///
/// Sources are tried in order of authority. Within one source the LONGEST
/// matching URL wins.
pub fn detect_conference(sources: &ConferenceSources<'_>) -> (r: Option<ConferenceLink>)
    ensures
        optional_link(r) == conference_in(sources@),
{
    let stated = optional_list(sources.provider_field);
    if let Some((url, provider)) = find_link(stated.as_slice()) {
        return Some(describe_meeting(sources, url, provider, ConferenceSource::ProviderField));
    }
    if let Some((url, provider)) = find_link(sources.icalendar_conference) {
        return Some(
            describe_meeting(sources, url, provider, ConferenceSource::IcalendarConference),
        );
    }
    if let Some((url, provider)) = find_link(sources.vendor_properties) {
        return Some(describe_meeting(sources, url, provider, ConferenceSource::VendorProperty));
    }
    let location = optional_list(sources.location);
    if let Some((url, provider)) = find_link(location.as_slice()) {
        return Some(describe_meeting(sources, url, provider, ConferenceSource::Location));
    }
    let description = optional_list(sources.description);
    if let Some((url, provider)) = find_link(description.as_slice()) {
        return Some(describe_meeting(sources, url, provider, ConferenceSource::Description));
    }
    None
}

// ---------------------------------------------------------------------------
// What holds of it
// ---------------------------------------------------------------------------

/// The join link among links is one of them and leads to its provider, and no
/// other join link among them is longer.
pub proof fn the_longest_link_wins(urls: Seq<Seq<char>>)
    ensures
        match join_link(urls) {
            Some((url, provider)) => urls.contains(url) && provider_of(url) == Some(provider)
                && forall|i: int|
                0 <= i < urls.len() && provider_of(#[trigger] urls[i]) is Some ==> byte_len(
                    urls[i],
                ) <= byte_len(url),
            None => forall|i: int|
                0 <= i < urls.len() ==> provider_of(#[trigger] urls[i]) is None,
        },
    decreases urls.len(),
{
    if urls.len() > 0 {
        let front = urls.drop_last();
        the_longest_link_wins(front);
        assert forall|i: int| 0 <= i < urls.len() - 1 implies urls[i] == front[i] by {}
        match join_link(urls) {
            Some((url, provider)) => {
                if join_link(front) == join_link(urls) {
                    let k = choose|k: int| 0 <= k < front.len() && front[k] == url;
                    assert(urls[k] == url);
                } else {
                    assert(urls[urls.len() - 1] == url);
                }
                assert forall|i: int|
                    0 <= i < urls.len() && provider_of(#[trigger] urls[i]) is Some implies byte_len(
                    urls[i],
                ) <= byte_len(url) by {
                    if i < front.len() {
                        assert(provider_of(front[i]) is Some);
                    }
                }
            },
            None => {
                assert forall|i: int| 0 <= i < urls.len() implies provider_of(
                    #[trigger] urls[i],
                ) is None by {
                    if i < front.len() {
                        assert(provider_of(front[i]) is None);
                    }
                }
            },
        }
    }
}

/// A description that does not hold the link comes back unchanged.
pub proof fn a_description_without_the_link_is_unchanged(
    description: Seq<char>,
    url: Seq<char>,
)
    requires
        !holds_text(description, url),
    ensures
        without_block(description, url) == description,
{
}

/// No line that stays when a block is removed holds the link, and every one of
/// them stood in the description.
pub proof fn no_line_that_stays_holds_the_link(lines: Seq<Seq<char>>, url: Seq<char>)
    ensures
        forall|i: int|
            0 <= i < swept(lines, url).kept.len() ==> !holds_text(
                #[trigger] swept(lines, url).kept[i],
                url,
            ) && lines.contains(swept(lines, url).kept[i]),
        forall|i: int|
            0 <= i < swept(lines, url).run.len() ==> !holds_text(
                #[trigger] swept(lines, url).run[i],
                url,
            ) && lines.contains(swept(lines, url).run[i]),
    decreases lines.len(),
{
    if lines.len() > 0 {
        let front = lines.drop_last();
        no_line_that_stays_holds_the_link(front, url);
        let before = swept(front, url);
        let after = swept(lines, url);
        assert forall|line: Seq<char>| front.contains(line) implies #[trigger] lines.contains(
            line,
        ) by {
            let k = choose|k: int| 0 <= k < front.len() && front[k] == line;
            assert(lines[k] == line);
        }
        assert(lines.contains(lines.last())) by {
            assert(lines[lines.len() - 1] == lines.last());
        }
        assert forall|i: int| 0 <= i < after.kept.len() implies !holds_text(
            #[trigger] after.kept[i],
            url,
        ) && lines.contains(after.kept[i]) by {
            if i < before.kept.len() {
                assert(after.kept[i] == before.kept[i]);
            } else if i < before.settled().len() {
                assert(after.kept[i] == before.run[i - before.kept.len()]);
            }
        }
        assert forall|i: int| 0 <= i < after.run.len() implies !holds_text(
            #[trigger] after.run[i],
            url,
        ) && lines.contains(after.run[i]) by {
            if i < before.run.len() {
                assert(after.run[i] == before.run[i]);
            }
        }
    }
}

/// Lines that hold no link are all kept, whatever stood above them.
proof fn lemma_rest_stays(above: Seq<Seq<char>>, rest: Seq<Seq<char>>, url: Seq<char>)
    requires
        rest.len() > 0,
        forall|k: int| 0 <= k < rest.len() ==> !holds_text(#[trigger] rest[k], url),
        !swept(above, url).in_block || !detail_line(rest[0]),
        !swept(above, url).gap || !is_blank(rest[0], Blank::Unicode),
    ensures
        !swept(above + rest, url).gap,
        !swept(above + rest, url).in_block,
        swept(above + rest, url).settled() == swept(above, url).settled() + rest,
    decreases rest.len(),
{
    let all = above + rest;
    let front = rest.drop_last();
    let last = rest[rest.len() - 1];
    assert(!holds_text(last, url));
    assert(all.drop_last() =~= above + front);
    assert(all.last() == last);
    let start = swept(above, url);
    if rest.len() == 1 {
        assert(all.drop_last() =~= above);
        if is_blank(last, Blank::Unicode) {
            assert(start.kept + start.run.push(last) =~= (start.kept + start.run) + rest);
        } else {
            assert(start.settled().push(last) + Seq::empty() =~= start.settled() + rest);
        }
    } else {
        assert forall|k: int| 0 <= k < front.len() implies !holds_text(#[trigger] front[k], url) by {
            assert(front[k] == rest[k]);
        }
        assert(front[0] == rest[0]);
        lemma_rest_stays(above, front, url);
        let before = swept(above + front, url);
        if is_blank(last, Blank::Unicode) {
            assert(before.kept + before.run.push(last) =~= (before.kept + before.run).push(last));
        } else {
            assert(before.settled().push(last) + Seq::empty() =~= before.settled().push(last));
        }
        assert(before.settled().push(last) =~= start.settled() + rest);
    }
}

/// The lines of a block: the first holds the link, and each other one holds it
/// too or is a detail line.
pub open spec fn is_block(block: Seq<Seq<char>>, url: Seq<char>) -> bool {
    &&& block.len() > 0
    &&& holds_text(block[0], url)
    &&& forall|k: int|
        0 <= k < block.len() ==> detail_line(#[trigger] block[k]) || holds_text(block[k], url)
}

/// A block goes whole, and leaves a gap.
proof fn lemma_block_goes(above: Seq<Seq<char>>, block: Seq<Seq<char>>, url: Seq<char>)
    requires
        is_block(block, url),
    ensures
        swept(above + block, url) == (Sweep { gap: true, in_block: true, ..swept(above, url) }),
    decreases block.len(),
{
    let all = above + block;
    let front = block.drop_last();
    assert(all.last() == block[block.len() - 1]);
    if block.len() == 1 {
        assert(all.drop_last() =~= above);
    } else {
        assert(all.drop_last() =~= above + front);
        assert(front[0] == block[0]);
        assert forall|k: int| 0 <= k < front.len() implies detail_line(#[trigger] front[k])
            || holds_text(front[k], url) by {
            assert(front[k] == block[k]);
        }
        lemma_block_goes(above, front, url);
    }
}

/// A block begins with its first line.
proof fn lemma_joined_begins(block: Seq<Seq<char>>)
    requires
        block.len() > 0,
    ensures
        block[0].len() <= joined(block, seq!['\n']).len(),
        joined(block, seq!['\n']).take(block[0].len() as int) == block[0],
    decreases block.len(),
{
    if block.len() == 1 {
        assert(block[0].take(block[0].len() as int) =~= block[0]);
    } else {
        let front = block.drop_last();
        lemma_joined_begins(front);
        assert(joined(block, seq!['\n']).take(block[0].len() as int) =~= joined(
            front,
            seq!['\n'],
        ).take(block[0].len() as int));
    }
}

/// A text with a block in it holds the link of the block.
proof fn lemma_link_inside(
    above: Seq<char>,
    block: Seq<Seq<char>>,
    below: Seq<char>,
    url: Seq<char>,
)
    requires
        is_block(block, url),
    ensures
        holds_text(above + joined(block, seq!['\n']) + below, url),
{
    let written = joined(block, seq!['\n']);
    let whole = above + written + below;
    lemma_joined_begins(block);
    let at = choose|at: int| stands_at(block[0], url, at);
    let from = above.len() + at;
    let here = whole.subrange(from, from + url.len());
    let there = block[0].subrange(at, at + url.len());
    assert forall|i: int| 0 <= i < url.len() implies #[trigger] here[i] == there[i] by {
        assert(whole[from + i] == written[at + i]);
        assert(written.take(block[0].len() as int)[at + i] == block[0][at + i]);
    }
    assert(here =~= there);
    assert(stands_at(whole, url, from));
}

/// Removing a block gives back the text it was put under, letter for letter:
/// any text that holds the link on none of its lines, and whose last line is
/// neither blank nor cut off at a carriage return.
pub proof fn removing_a_block_gives_the_text_back(
    text: Seq<char>,
    block: Seq<Seq<char>>,
    url: Seq<char>,
)
    requires
        !is_blank(split_on(text, '\n').last(), Blank::Unicode),
        text.last() != '\r',
        forall|k: int|
            0 <= k < split_on(text, '\n').len() ==> !holds_text(
                #[trigger] split_on(text, '\n')[k],
                url,
            ),
        url.len() > 0,
        is_block(block, url),
        forall|k: int, i: int|
            0 <= k < block.len() && 0 <= i < block[k].len() ==> #[trigger] block[k][i] != '\n',
    ensures
        without_block(text + seq!['\n', '\n'] + joined(block, seq!['\n']), url) == text,
{
    let own = split_on(text, '\n');
    let blank = Seq::<char>::empty();
    let written = joined(block, seq!['\n']);
    let whole = text + seq!['\n', '\n'] + written;
    reveal_strlit("\n");
    assert("\n"@ =~= seq!['\n']);
    lemma_split_some(text, '\n');
    lemma_split_joined(block, '\n');
    lemma_split_concat(blank, written, '\n');
    lemma_split_concat(text, blank + seq!['\n'] + written, '\n');
    assert(whole =~= text + seq!['\n'] + (blank + seq!['\n'] + written));
    assert(split_on(blank, '\n') =~= seq![blank]);
    let above = own.push(blank);
    assert(split_on(whole, '\n') =~= above + block);
    let none = Seq::<Seq<char>>::empty();
    assert(none + own =~= own);
    lemma_rest_stays(none, own, url);
    assert(swept(none, url).settled() + own =~= own);
    // The last line is kept, so no blank ones are open under it.
    let last = own[own.len() - 1];
    assert(!holds_text(last, url));
    let upper = swept(own, url);
    assert(upper.run =~= none);
    assert(upper.kept + upper.run =~= upper.kept);
    assert(upper.kept == own);
    if holds_text(blank, url) {
        let at = choose|at: int| stands_at(blank, url, at);
        assert(blank.len() >= url.len());
    }
    assert(above.drop_last() =~= own);
    lemma_block_goes(above, block, url);
    assert(swept(above, url).kept == own);
    lemma_last_char(text);
    assert(own.drop_last().push(last) =~= own);
    lemma_joined_split(text, '\n');
    lemma_link_inside(text + seq!['\n', '\n'], block, blank, url);
    assert(whole + blank =~= whole);
}

/// The last line of a text ends as the text does.
proof fn lemma_last_char(text: Seq<char>)
    requires
        split_on(text, '\n').last().len() > 0,
    ensures
        text.len() > 0,
        split_on(text, '\n').last().last() == text.last(),
{
    lemma_split_some(text, '\n');
    if text.len() == 0 {
        assert(split_on(text, '\n') =~= seq![Seq::<char>::empty()]);
    }
}

/// The text under a block stays when the block goes, letter for letter: any
/// text that holds the link on none of its lines and begins with a line that is
/// not blank.
pub proof fn the_text_under_a_block_stays(
    block: Seq<Seq<char>>,
    text: Seq<char>,
    url: Seq<char>,
)
    requires
        !is_blank(split_on(text, '\n')[0], Blank::Unicode),
        forall|k: int|
            0 <= k < split_on(text, '\n').len() ==> !holds_text(
                #[trigger] split_on(text, '\n')[k],
                url,
            ),
        url.len() > 0,
        is_block(block, url),
        forall|k: int, i: int|
            0 <= k < block.len() && 0 <= i < block[k].len() ==> #[trigger] block[k][i] != '\n',
    ensures
        without_block(joined(block, seq!['\n']) + seq!['\n', '\n'] + text, url) == text,
{
    let own = split_on(text, '\n');
    let blank = Seq::<char>::empty();
    let written = joined(block, seq!['\n']);
    let whole = written + seq!['\n', '\n'] + text;
    reveal_strlit("\n");
    assert("\n"@ =~= seq!['\n']);
    lemma_split_some(text, '\n');
    lemma_split_joined(block, '\n');
    lemma_split_concat(written, blank, '\n');
    lemma_split_concat(written + seq!['\n'] + blank, text, '\n');
    assert(whole =~= (written + seq!['\n'] + blank) + seq!['\n'] + text);
    assert(split_on(blank, '\n') =~= seq![blank]);
    let above = block.push(blank);
    assert(split_on(whole, '\n') =~= above + own);
    let none = Seq::<Seq<char>>::empty();
    assert(none + block =~= block);
    lemma_block_goes(none, block, url);
    if holds_text(blank, url) {
        let at = choose|at: int| stands_at(blank, url, at);
        assert(blank.len() >= url.len());
    }
    assert(above.drop_last() =~= block);
    assert(!detail_line(blank)) by {
        lemma_trimmed_empty(blank, Blank::Unicode);
        if detail_line(blank) {
            lemma_first_index(trimmed(blank, Blank::Unicode), ':');
        }
    }
    assert(swept(above, url).kept =~= none);
    lemma_rest_stays(above, own, url);
    assert(swept(above, url).settled() + own =~= own);
    lemma_joined_split(text, '\n');
    lemma_link_inside(blank, block, seq!['\n', '\n'] + text, url);
    assert(blank + written + (seq!['\n', '\n'] + text) =~= whole);
}

/// A label and a value make a line of their own: neither is blank, and the
/// label is short and has no colon.
pub open spec fn is_fact(fact: (Seq<char>, Seq<char>)) -> bool {
    &&& !is_blank(fact.0, Blank::Unicode)
    &&& !is_blank(fact.1, Blank::Unicode)
    &&& trimmed(fact.0, Blank::Unicode).len() <= 40
    &&& !trimmed(fact.0, Blank::Unicode).contains(':')
}

proof fn lemma_fact_line(fact: (Seq<char>, Seq<char>))
    requires
        is_fact(fact),
    ensures
        detail_line(trimmed(fact.0, Blank::Unicode) + ": "@ + trimmed(fact.1, Blank::Unicode)),
{
    let kind = Blank::Unicode;
    let label = trimmed(fact.0, kind);
    let value = trimmed(fact.1, kind);
    let line = label + ": "@ + value;
    reveal_strlit(": ");
    reveal_strlit("://");
    reveal_strlit("//");
    lemma_trimmed_empty(fact.0, kind);
    lemma_trimmed_empty(fact.1, kind);
    lemma_trimmed_ends(fact.0, kind);
    lemma_trimmed_ends(fact.1, kind);
    assert(line[0] == label[0]);
    assert(line.last() == value.last());
    lemma_trimmed_same(line, kind);
    lemma_first_index(line, ':');
    assert(line[label.len() as int] == ':');
    assert(first_index(line, ':') == Some(label.len() as int)) by {
        let at = first_index(line, ':')->0;
        if at < label.len() {
            assert(line[at] == label[at]);
            assert(label.contains(label[at]));
        }
    }
    let (before, after) = split_first(line, ':')->0;
    assert(before =~= label);
    assert(after =~= seq![' '] + value);
    assert(!is_blank(label, kind)) by {
        assert(!kind.holds(label[0]));
    }
    assert(!is_blank(after, kind)) by {
        assert(after[after.len() - 1] == value.last());
    }
    if holds_text(label, "://"@) {
        let at = choose|at: int| stands_at(label, "://"@, at);
        assert(label.subrange(at, at + 3)[0] == ':');
        assert(label.contains(label[at]));
    }
    if starts_with(after, "//"@) {
        assert(after.subrange(0, 2)[0] == '/');
    }
}

/// What is written for a meeting is a block of its link, where the link stands
/// in the first fact, so that removing it by the link leaves nothing of it.
pub proof fn what_is_written_is_a_block(facts: Seq<(Seq<char>, Seq<char>)>, url: Seq<char>)
    requires
        facts.len() > 0,
        forall|k: int| 0 <= k < facts.len() ==> is_fact(#[trigger] facts[k]),
        holds_text(trimmed(facts[0].1, Blank::Unicode), url),
    ensures
        block_lines(facts).len() == facts.len(),
        is_block(block_lines(facts), url),
    decreases facts.len(),
{
    let front = facts.drop_last();
    let lines = block_lines(facts);
    let last = facts[facts.len() - 1];
    assert(is_fact(last));
    lemma_fact_line(last);
    if facts.len() == 1 {
        let value = trimmed(last.1, Blank::Unicode);
        let label = trimmed(last.0, Blank::Unicode) + ": "@;
        let line = label + value;
        assert(block_lines(front) =~= Seq::empty());
        let at = choose|at: int| stands_at(value, url, at);
        let from = label.len() + at;
        assert(line.subrange(from, from + url.len()) =~= value.subrange(at, at + url.len()));
        assert(stands_at(line, url, from));
        assert(lines[0] == line);
    } else {
        assert(front[0] == facts[0]);
        assert forall|k: int| 0 <= k < front.len() implies is_fact(#[trigger] front[k]) by {
            assert(front[k] == facts[k]);
        }
        what_is_written_is_a_block(front, url);
        let before = block_lines(front);
        assert(lines[0] == before[0]);
        assert forall|k: int| 0 <= k < lines.len() implies detail_line(#[trigger] lines[k])
            || holds_text(lines[k], url) by {
            if k < before.len() {
                assert(lines[k] == before[k]);
            }
        }
    }
}

/// The place of a source in the order of authority.
pub open spec fn authority(source: ConferenceSource) -> int {
    match source {
        ConferenceSource::ProviderField => 0,
        ConferenceSource::IcalendarConference => 1,
        ConferenceSource::VendorProperty => 2,
        ConferenceSource::Location => 3,
        ConferenceSource::Description => 4,
    }
}

/// The source of most authority wins: a meeting is found exactly when some
/// source holds a join link, it is the link of the source it names, and no
/// source of more authority holds any.
pub proof fn the_source_of_most_authority_wins(sources: SourceTexts, other: ConferenceSource)
    ensures
        link_in(sources, other) is Some ==> conference_in(sources) is Some,
        conference_in(sources) matches Some(found) ==> {
            &&& link_in(sources, found.source) == Some((found.join_url, found.provider))
            &&& authority(other) < authority(found.source) ==> link_in(sources, other) is None
        },
{
}

/// A block between two texts goes, and one blank line is left between them: what
/// stood above and what stood below stay letter for letter. The lines next to the
/// block are not blank, and no line of either text holds the link.
pub proof fn one_blank_line_is_left_between(
    top: Seq<char>,
    block: Seq<Seq<char>>,
    bottom: Seq<char>,
    url: Seq<char>,
)
    requires
        !is_blank(split_on(top, '\n').last(), Blank::Unicode),
        !is_blank(split_on(bottom, '\n')[0], Blank::Unicode),
        forall|k: int|
            0 <= k < split_on(top, '\n').len() ==> !holds_text(
                #[trigger] split_on(top, '\n')[k],
                url,
            ),
        forall|k: int|
            0 <= k < split_on(bottom, '\n').len() ==> !holds_text(
                #[trigger] split_on(bottom, '\n')[k],
                url,
            ),
        url.len() > 0,
        is_block(block, url),
        forall|k: int, i: int|
            0 <= k < block.len() && 0 <= i < block[k].len() ==> #[trigger] block[k][i] != '\n',
    ensures
        without_block(
            top + seq!['\n', '\n'] + joined(block, seq!['\n']) + seq!['\n', '\n'] + bottom,
            url,
        ) == top + seq!['\n', '\n'] + bottom,
{
    let upper = split_on(top, '\n');
    let lower = split_on(bottom, '\n');
    let blank = Seq::<char>::empty();
    let written = joined(block, seq!['\n']);
    let nl = seq!['\n'];
    let whole = top + seq!['\n', '\n'] + written + seq!['\n', '\n'] + bottom;
    reveal_strlit("\n");
    assert("\n"@ =~= nl);
    lemma_split_some(top, '\n');
    lemma_split_some(bottom, '\n');
    lemma_split_joined(block, '\n');
    assert(split_on(blank, '\n') =~= seq![blank]);
    // The lines of the whole.
    let behind = blank + nl + bottom;
    lemma_split_concat(blank, bottom, '\n');
    lemma_split_concat(written, behind, '\n');
    lemma_split_concat(blank, written + nl + behind, '\n');
    lemma_split_concat(top, blank + nl + (written + nl + behind), '\n');
    assert(whole =~= top + nl + (blank + nl + (written + nl + behind)));
    let first = upper.push(blank);
    let above = first + block;
    let opened = above.push(blank);
    assert(split_on(whole, '\n') =~= opened + lower);
    // They are gone through.
    let none = Seq::<Seq<char>>::empty();
    assert(none + upper =~= upper);
    lemma_rest_stays(none, upper, url);
    assert(swept(none, url).settled() + upper =~= upper);
    let last = upper[upper.len() - 1];
    assert(!holds_text(last, url));
    let done = swept(upper, url);
    assert(done.run =~= none);
    assert(done.kept + done.run =~= done.kept);
    assert(done.kept == upper);
    if holds_text(blank, url) {
        let at = choose|at: int| stands_at(blank, url, at);
        assert(blank.len() >= url.len());
    }
    assert(first.drop_last() =~= upper);
    assert(swept(first, url).run =~= seq![blank]);
    lemma_block_goes(first, block, url);
    assert(opened.drop_last() =~= above);
    assert(!detail_line(blank)) by {
        lemma_trimmed_empty(blank, Blank::Unicode);
        if detail_line(blank) {
            lemma_first_index(trimmed(blank, Blank::Unicode), ':');
        }
    }
    let gone = swept(opened, url);
    assert(gone.kept == upper && gone.run[0] == blank && gone.gap && !gone.in_block);
    lemma_rest_stays(opened, lower, url);
    let kept = upper.push(blank) + lower;
    assert(swept(opened + lower, url).ended() =~= kept);
    // They make up the two texts.
    let left = top + seq!['\n', '\n'] + bottom;
    lemma_split_concat(top, behind, '\n');
    assert(left =~= top + nl + behind);
    assert(split_on(left, '\n') =~= kept);
    lemma_joined_split(left, '\n');
    lemma_link_inside(top + seq!['\n', '\n'], block, seq!['\n', '\n'] + bottom, url);
    assert(top + seq!['\n', '\n'] + written + (seq!['\n', '\n'] + bottom) =~= whole);
}

} // verus!
