//! Grouping a provider's meeting with the appointment it belongs to.
//!
//! A meeting and its calendar entry are not related by resemblance. They carry
//! the same JOIN URL, issued by the provider, and that is an identity. Grouping
//! on an identity may happen by itself; the rules here are strict about staying
//! on the identity's side.
//!
//! The identity has to survive being written down differently: that is
//! [`normalize_join_url`]. What it does NOT fold is the query string, where a
//! meeting's id and password live.

use vstd::prelude::*;

use crate::event_group::{find_group, group_of, EventGroup, EventKey};
use crate::group_suggestion::{holds_meetings, is_meeting_calendar, is_refused, refused};
use crate::meeting_events::{borrowed, join_url_in, join_url_of};
use crate::suggestion_decline::SuggestionDecline;
use crate::text::{
    chars_of, contains_text, decimal, decimal_of, ends_with, is_blank, lemma_texts_push,
    lemma_trimmed_empty,
    optional_text, same, string_of, texts, trim, trimmed, Blank,
};

verus! {

/// A URL taken apart.
#[derive(Debug, Clone, PartialEq, Eq)]
pub struct UrlParts {
    pub scheme: String,
    pub host: Option<String>,
    /// The port, where it is not the scheme's own.
    pub port: Option<u16>,
    pub path: String,
    pub query: Option<String>,
}

/// What [`UrlParts`] hold.
pub struct UrlText {
    pub scheme: Seq<char>,
    pub host: Option<Seq<char>>,
    pub port: Option<u16>,
    pub path: Seq<char>,
    pub query: Option<Seq<char>>,
}

impl View for UrlParts {
    type V = UrlText;

    open spec fn view(&self) -> UrlText {
        UrlText {
            scheme: self.scheme@,
            host: optional_text(self.host),
            port: self.port,
            path: self.path@,
            query: optional_text(self.query),
        }
    }
}

/// What an optional URL holds.
pub open spec fn optional_url(url: Option<UrlParts>) -> Option<UrlText> {
    match url {
        Some(u) => Some(u@),
        None => None,
    }
}

/// What the `url` crate reads in a text as an absolute URL, taken apart.
pub uninterp spec fn read_url(text: Seq<char>) -> Option<UrlText>;

/// Reads an absolute URL with `Url::parse` and takes it apart with the URL's
/// own accessors. What it reads is named [`read_url`].
#[verifier::external_body]
fn parse_url(text: &str) -> (r: Option<UrlParts>)
    ensures
        optional_url(r) == read_url(text@),
{
    let url = url::Url::parse(text).ok()?;
    Some(UrlParts {
        scheme: url.scheme().to_string(),
        host: url.host_str().map(str::to_string),
        port: url.port(),
        path: url.path().to_string(),
        query: url.query().map(str::to_string),
    })
}

/// A path without the slashes it ends with.
pub open spec fn without_slashes(path: Seq<char>) -> Seq<char>
    decreases path.len(),
{
    if path.len() > 0 && path.last() == '/' {
        without_slashes(path.drop_last())
    } else {
        path
    }
}

/// The one spelling of a URL that was taken apart.
pub open spec fn folded(url: UrlText) -> Seq<char> {
    let host = match url.host {
        Some(host) => host,
        None => Seq::empty(),
    };
    let port = match url.port {
        Some(port) => ":"@ + decimal(port as nat),
        None => Seq::empty(),
    };
    let query = match url.query {
        Some(query) => "?"@ + query,
        None => Seq::empty(),
    };
    url.scheme + "://"@ + host + port + without_slashes(url.path) + query
}

/// The one spelling of a text that `read` was read in: the folded URL, or the
/// trimmed text where it is none.
pub open spec fn folded_text(read: Option<UrlText>, text: Seq<char>) -> Seq<char> {
    match read {
        Some(url) => folded(url),
        None => trimmed(text, Blank::Unicode),
    }
}

/// What two spellings of the same link agree on.
pub open spec fn link_key(url: Seq<char>) -> Seq<char> {
    if is_blank(url, Blank::Unicode) {
        Seq::empty()
    } else {
        folded_text(read_url(trimmed(url, Blank::Unicode)), url)
    }
}

fn trim_slashes(path: &str) -> (r: String)
    ensures
        r@ == without_slashes(path@),
{
    let mut out = chars_of(path);
    let mut n: usize = out.len();
    while n > 0 && out[n - 1] == '/'
        invariant
            n == out@.len(),
            without_slashes(path@) == without_slashes(out@),
        decreases n,
    {
        let ghost before = out@;
        out.truncate(n - 1);
        assert(out@ =~= before.drop_last());
        n = n - 1;
    }
    string_of(out.as_slice())
}

/// The one spelling of a URL that was taken apart: case in the scheme and host,
/// a default port, dot segments and the punycode form of a host are settled by
/// the reading, trailing slashes on the path go, and the query stays.
pub fn fold_url(url: &UrlParts) -> (r: String)
    ensures
        r@ == folded(url@),
{
    let mut out: String = String::new();
    out.append(url.scheme.as_str());
    out.append("://");
    if let Some(host) = &url.host {
        out.append(host.as_str());
    }
    if let Some(port) = url.port {
        out.append(":");
        out.append(decimal_of(port as u64).as_str());
    }
    out.append(trim_slashes(url.path.as_str()).as_str());
    if let Some(query) = &url.query {
        out.append("?");
        out.append(query.as_str());
    }
    assert(out@ =~= folded(url@));
    out
}

/// Folds a join URL to what two spellings of the same link agree on.
///
/// A string that will not parse comes back trimmed rather than mangled.
pub fn normalize_join_url(url: &str) -> (r: String)
    ensures
        r@ == link_key(url@),
{
    proof {
        lemma_trimmed_empty(url@, Blank::Unicode);
    }
    let t = trim(url, Blank::Unicode);
    if t.as_str().is_empty() {
        return String::new();
    }
    match parse_url(t.as_str()) {
        Some(parts) => fold_url(&parts),
        None => t,
    }
}

/// The least a row needs for this.
#[derive(Debug, Clone, PartialEq, Eq)]
pub struct LinkableEvent {
    pub calendar_id: String,
    /// The id this row would be GROUPED under: the series master.
    pub series_id: String,
    pub location: Option<String>,
    pub description: Option<String>,
    /// Whether the row belongs to a recurring series.
    pub recurs: bool,
}

/// A meeting row and the appointment it belongs to, as positions in the input.
#[derive(Debug, Clone, PartialEq, Eq)]
pub struct MeetingLinkPair {
    /// The row from the meetings calendar.
    pub meeting: usize,
    /// The ordinary calendar entry for the same meeting.
    pub event: usize,
    /// The join URL both carry: the identity this rests on.
    pub join_url: String,
}

/// Everything [`find_meeting_link_pairs`] needs.
#[derive(Debug, Clone, PartialEq, Eq)]
pub struct MeetingLinkInput {
    pub events: Vec<LinkableEvent>,
    pub groups: Vec<EventGroup>,
    pub declines: Vec<SuggestionDecline>,
}

impl LinkableEvent {
    pub open spec fn key(self) -> EventKey {
        EventKey { calendar: self.calendar_id@, event: self.series_id@ }
    }

    /// The link the row is found by.
    pub open spec fn link(self) -> Option<Seq<char>> {
        match join_url_in(optional_text(self.location), optional_text(self.description)) {
            None => None,
            Some(url) => if link_key(url).len() == 0 {
                None
            } else {
                Some(link_key(url))
            },
        }
    }
}

/// What a [`MeetingLinkPair`] holds.
pub struct PairText {
    pub meeting: usize,
    pub event: usize,
    pub join_url: Seq<char>,
}

impl View for MeetingLinkPair {
    type V = PairText;

    open spec fn view(&self) -> PairText {
        PairText { meeting: self.meeting, event: self.event, join_url: self.join_url@ }
    }
}

/// What a list of pairs holds.
pub open spec fn pair_texts(v: Seq<MeetingLinkPair>) -> Seq<PairText> {
    Seq::new(v.len(), |i: int| v[i]@)
}

/// The links of rows, each once, as they came.
pub open spec fn links_seen(events: Seq<LinkableEvent>) -> Seq<Seq<char>>
    decreases events.len(),
{
    if events.len() == 0 {
        Seq::empty()
    } else {
        let before = links_seen(events.drop_last());
        match events.last().link() {
            None => before,
            Some(url) => if before.contains(url) {
                before
            } else {
                before.push(url)
            },
        }
    }
}

/// One of the rows at these positions has this key.
pub open spec fn has_key_among(events: Seq<LinkableEvent>, at: Seq<usize>, key: EventKey) -> bool {
    exists|k: int| 0 <= k < at.len() && events[(#[trigger] at[k]) as int].key() == key
}

/// The rows among the first `n` that carry a link, of the meetings calendars or
/// of the others. A series counts once, by its first row.
pub open spec fn rows_with(
    events: Seq<LinkableEvent>,
    url: Seq<char>,
    meetings: bool,
    n: int,
) -> Seq<usize>
    decreases n,
{
    if n <= 0 {
        Seq::empty()
    } else {
        let before = rows_with(events, url, meetings, n - 1);
        let event = events[n - 1];
        if event.link() == Some(url) && holds_meetings(event.calendar_id@) == meetings
            && !has_key_among(events, before, event.key()) {
            before.push((n - 1) as usize)
        } else {
            before
        }
    }
}

/// An appointment a row can belong to.
pub enum Appointment {
    /// A group, by its id.
    Group(Seq<char>),
    /// A series that is in no group.
    Alone(EventKey),
}

/// Which appointment a row belongs to: its group when it has one, else itself.
pub open spec fn appointment_of(groups: Seq<EventGroup>, event: LinkableEvent) -> Appointment {
    match group_of(groups, event.key()) {
        Some(k) => Appointment::Group(groups[k].id@),
        None => Appointment::Alone(event.key()),
    }
}

/// Whether the rows of one link can be paired: ONE meeting, ONE appointment,
/// not recurring, the meeting in no group yet, the meeting's account not
/// represented in the appointment's group, and the pair not refused.
pub open spec fn pairs_up(
    events: Seq<LinkableEvent>,
    groups: Seq<EventGroup>,
    declines: Seq<SuggestionDecline>,
    meetings: Seq<usize>,
    entries: Seq<usize>,
) -> bool {
    &&& meetings.len() == 1
    &&& entries.len() > 0
    &&& {
        let meeting = events[meetings[0] as int];
        let entry = events[entries[0] as int];
        &&& forall|k: int|
            0 <= k < entries.len() ==> appointment_of(
                groups,
                events[(#[trigger] entries[k]) as int],
            ) == appointment_of(groups, entry)
        &&& forall|k: int|
            0 <= k < entries.len() ==> !events[(#[trigger] entries[k]) as int].recurs
        &&& group_of(groups, meeting.key()) is None
        &&& match group_of(groups, entry.key()) {
            Some(g) => {
                &&& forall|k: int|
                    0 <= k < groups[g].members@.len() ==> (
                    #[trigger] groups[g].members@[k]).calendar_id@ != meeting.calendar_id@
                &&& forall|k: int|
                    0 <= k < groups[g].members@.len() ==> !is_refused(
                        declines,
                        meeting.key(),
                        (#[trigger] groups[g].members@[k]).key(),
                    )
            },
            None => forall|k: int|
                0 <= k < entries.len() ==> !is_refused(
                    declines,
                    meeting.key(),
                    events[(#[trigger] entries[k]) as int].key(),
                ),
        }
    }
}

/// The pairs of links, in order.
pub open spec fn pairs_of(
    events: Seq<LinkableEvent>,
    groups: Seq<EventGroup>,
    declines: Seq<SuggestionDecline>,
    urls: Seq<Seq<char>>,
) -> Seq<PairText>
    decreases urls.len(),
{
    if urls.len() == 0 {
        Seq::empty()
    } else {
        let before = pairs_of(events, groups, declines, urls.drop_last());
        let n = events.len() as int;
        let meetings = rows_with(events, urls.last(), true, n);
        let entries = rows_with(events, urls.last(), false, n);
        if pairs_up(events, groups, declines, meetings, entries) {
            before.push(
                PairText { meeting: meetings[0], event: entries[0], join_url: urls.last() },
            )
        } else {
            before
        }
    }
}

fn link_of(event: &LinkableEvent) -> (r: Option<String>)
    ensures
        optional_text(r) == event.link(),
{
    match join_url_of(borrowed(&event.location), borrowed(&event.description)) {
        None => None,
        Some(raw) => {
            let url = normalize_join_url(raw.as_str());
            if url.as_str().is_empty() {
                None
            } else {
                Some(url)
            }
        },
    }
}

/// The links of rows, in the rows' order.
spec fn links_match(events: Seq<LinkableEvent>, links: Seq<Option<String>>) -> bool {
    &&& links.len() == events.len()
    &&& forall|i: int|
        0 <= i < events.len() ==> optional_text(#[trigger] links[i]) == events[i].link()
}

fn find_links(links: &[Option<String>], events: &[LinkableEvent]) -> (r: Vec<String>)
    requires
        links_match(events@, links@),
    ensures
        texts(r@) == links_seen(events@),
{
    let mut out: Vec<String> = Vec::new();
    let mut i: usize = 0;
    assert(texts(out@) =~= Seq::empty());
    while i < events.len()
        invariant
            i <= events.len(),
            links_match(events@, links@),
            texts(out@) == links_seen(events@.take(i as int)),
        decreases events.len() - i,
    {
        assert(events@.take(i as int + 1).drop_last() =~= events@.take(i as int));
        assert(optional_text(links@[i as int]) == events@[i as int].link());
        if let Some(url) = &links[i] {
            if !contains_text(out.as_slice(), url.as_str()) {
                let url = url.clone();
                proof {
                    lemma_texts_push(out@, url);
                }
                out.push(url);
            }
        }
        i = i + 1;
    }
    assert(events@.take(i as int) =~= events@);
    out
}

fn among(events: &[LinkableEvent], at: &[usize], i: usize) -> (r: bool)
    requires
        i < events@.len(),
        forall|k: int| 0 <= k < at@.len() ==> (#[trigger] at@[k]) < events@.len(),
    ensures
        r == has_key_among(events@, at@, events@[i as int].key()),
{
    let mut k: usize = 0;
    while k < at.len()
        invariant
            k <= at.len(),
            i < events@.len(),
            forall|j: int| 0 <= j < at@.len() ==> (#[trigger] at@[j]) < events@.len(),
            forall|j: int|
                0 <= j < k ==> events@[(#[trigger] at@[j]) as int].key()
                    != events@[i as int].key(),
        decreases at.len() - k,
    {
        let other = &events[at[k]];
        if same(other.calendar_id.as_str(), events[i].calendar_id.as_str()) && same(
            other.series_id.as_str(),
            events[i].series_id.as_str(),
        ) {
            assert(events@[at@[k as int] as int].key() == events@[i as int].key());
            return true;
        }
        k = k + 1;
    }
    false
}

fn find_rows(
    events: &[LinkableEvent],
    links: &[Option<String>],
    url: &str,
    meetings: bool,
) -> (r: Vec<usize>)
    requires
        links_match(events@, links@),
    ensures
        r@ == rows_with(events@, url@, meetings, events@.len() as int),
        forall|k: int| 0 <= k < r@.len() ==> (#[trigger] r@[k]) < events@.len(),
{
    let mut out: Vec<usize> = Vec::new();
    let mut i: usize = 0;
    while i < events.len()
        invariant
            i <= events.len(),
            links_match(events@, links@),
            out@ == rows_with(events@, url@, meetings, i as int),
            forall|k: int| 0 <= k < out@.len() ==> (#[trigger] out@[k]) < events@.len(),
        decreases events.len() - i,
    {
        assert(optional_text(links@[i as int]) == events@[i as int].link());
        let carries = match &links[i] {
            Some(link) => same(link.as_str(), url),
            None => false,
        };
        if carries && is_meeting_calendar(events[i].calendar_id.as_str()) == meetings && !among(
            events,
            out.as_slice(),
            i,
        ) {
            out.push(i);
        }
        i = i + 1;
    }
    out
}

fn same_appointment(groups: &[EventGroup], a: &LinkableEvent, b: &LinkableEvent) -> (r: bool)
    ensures
        r == (appointment_of(groups@, *a) == appointment_of(groups@, *b)),
{
    let of_a = find_group(groups, a.calendar_id.as_str(), a.series_id.as_str());
    let of_b = find_group(groups, b.calendar_id.as_str(), b.series_id.as_str());
    match (of_a, of_b) {
        (Some(i), Some(k)) => same(groups[i].id.as_str(), groups[k].id.as_str()),
        (None, None) => same(a.calendar_id.as_str(), b.calendar_id.as_str()) && same(
            a.series_id.as_str(),
            b.series_id.as_str(),
        ),
        _ => false,
    }
}

fn pair_up(
    events: &[LinkableEvent],
    groups: &[EventGroup],
    declines: &[SuggestionDecline],
    meetings: &[usize],
    entries: &[usize],
) -> (r: bool)
    requires
        forall|k: int| 0 <= k < meetings@.len() ==> (#[trigger] meetings@[k]) < events@.len(),
        forall|k: int| 0 <= k < entries@.len() ==> (#[trigger] entries@[k]) < events@.len(),
    ensures
        r == pairs_up(events@, groups@, declines@, meetings@, entries@),
{
    if meetings.len() != 1 || entries.len() == 0 {
        return false;
    }
    let meeting = &events[meetings[0]];
    let entry = &events[entries[0]];
    let mut k: usize = 0;
    while k < entries.len()
        invariant
            k <= entries.len(),
            meetings@.len() == 1,
            entries@.len() > 0,
            *meeting == events@[meetings@[0] as int],
            *entry == events@[entries@[0] as int],
            forall|j: int| 0 <= j < entries@.len() ==> (#[trigger] entries@[j]) < events@.len(),
            forall|j: int|
                0 <= j < k ==> appointment_of(
                    groups@,
                    events@[(#[trigger] entries@[j]) as int],
                ) == appointment_of(groups@, *entry),
            forall|j: int| 0 <= j < k ==> !events@[(#[trigger] entries@[j]) as int].recurs,
        decreases entries.len() - k,
    {
        let other = &events[entries[k]];
        assert(events@[entries@[k as int] as int] == *other);
        if other.recurs || !same_appointment(groups, other, entry) {
            return false;
        }
        k = k + 1;
    }
    if find_group(groups, meeting.calendar_id.as_str(), meeting.series_id.as_str()).is_some() {
        return false;
    }
    match find_group(groups, entry.calendar_id.as_str(), entry.series_id.as_str()) {
        Some(g) => {
            let members = &groups[g].members;
            let mut m: usize = 0;
            while m < members.len()
                invariant
                    m <= members.len(),
                    g < groups@.len(),
                    *members == groups@[g as int].members,
                    meetings@.len() == 1,
                    entries@.len() > 0,
                    *meeting == events@[meetings@[0] as int],
                    *entry == events@[entries@[0] as int],
                    group_of(groups@, entry.key()) == Some(g as int),
                    forall|j: int|
                        0 <= j < m ==> (#[trigger] groups@[g as int].members@[j]).calendar_id@
                            != meeting.calendar_id@,
                    forall|j: int|
                        0 <= j < m ==> !is_refused(
                            declines@,
                            meeting.key(),
                            (#[trigger] groups@[g as int].members@[j]).key(),
                        ),
                decreases members.len() - m,
            {
                let member = &members[m];
                assert(groups@[g as int].members@[m as int] == *member);
                if same(member.calendar_id.as_str(), meeting.calendar_id.as_str()) || refused(
                    declines,
                    (meeting.calendar_id.as_str(), meeting.series_id.as_str()),
                    (member.calendar_id.as_str(), member.event_id.as_str()),
                ) {
                    return false;
                }
                m = m + 1;
            }
            true
        },
        None => {
            let mut m: usize = 0;
            while m < entries.len()
                invariant
                    m <= entries.len(),
                    meetings@.len() == 1,
                    entries@.len() > 0,
                    *meeting == events@[meetings@[0] as int],
                    *entry == events@[entries@[0] as int],
                    group_of(groups@, entry.key()) is None,
                    forall|j: int|
                        0 <= j < entries@.len() ==> (#[trigger] entries@[j]) < events@.len(),
                    forall|j: int|
                        0 <= j < m ==> !is_refused(
                            declines@,
                            meeting.key(),
                            events@[(#[trigger] entries@[j]) as int].key(),
                        ),
                decreases entries.len() - m,
            {
                let other = &events[entries[m]];
                assert(events@[entries@[m as int] as int] == *other);
                if refused(
                    declines,
                    (meeting.calendar_id.as_str(), meeting.series_id.as_str()),
                    (other.calendar_id.as_str(), other.series_id.as_str()),
                ) {
                    return false;
                }
                m = m + 1;
            }
            true
        },
    }
}

/// The (meeting, appointment) pairs that should become groups.
///
/// A link is only acted on when it identifies exactly ONE meeting and exactly
/// ONE appointment. Appointments are counted, not rows: a series counts once,
/// and a group counts once. A claimant OUTSIDE the group still makes the link
/// ambiguous, and an ambiguous identity is a resemblance again.
///
/// A recurring appointment is left alone, a meeting that is already in a group
/// is finished business, an appointment has one meeting per account, and a
/// refusal is matched as the PAIR it names, against every copy of the
/// appointment there is.
pub fn find_meeting_link_pairs(
    events: &[LinkableEvent],
    groups: &[EventGroup],
    declines: &[SuggestionDecline],
) -> (r: Vec<MeetingLinkPair>)
    ensures
        pair_texts(r@) == pairs_of(events@, groups@, declines@, links_seen(events@)),
{
    let mut links: Vec<Option<String>> = Vec::new();
    let mut i: usize = 0;
    while i < events.len()
        invariant
            i <= events.len(),
            links@.len() == i,
            forall|j: int|
                0 <= j < i ==> optional_text(#[trigger] links@[j]) == events@[j].link(),
        decreases events.len() - i,
    {
        links.push(link_of(&events[i]));
        i = i + 1;
    }
    let urls = find_links(links.as_slice(), events);
    let ghost all = texts(urls@);
    let mut out: Vec<MeetingLinkPair> = Vec::new();
    let mut k: usize = 0;
    assert(pair_texts(out@) =~= Seq::empty());
    while k < urls.len()
        invariant
            k <= urls.len(),
            all == texts(urls@),
            links_match(events@, links@),
            pair_texts(out@) == pairs_of(events@, groups@, declines@, all.take(k as int)),
        decreases urls.len() - k,
    {
        assert(all.take(k as int + 1).drop_last() =~= all.take(k as int));
        assert(all.take(k as int + 1).last() == urls@[k as int]@);
        let url = urls[k].as_str();
        let meetings = find_rows(events, links.as_slice(), url, true);
        let entries = find_rows(events, links.as_slice(), url, false);
        if pair_up(events, groups, declines, meetings.as_slice(), entries.as_slice()) {
            let pair = MeetingLinkPair {
                meeting: meetings[0],
                event: entries[0],
                join_url: urls[k].clone(),
            };
            let ghost before = pair_texts(out@);
            out.push(pair);
            assert(pair_texts(out@) =~= before.push(pair@));
        }
        k = k + 1;
    }
    assert(all.take(k as int) =~= all);
    out
}

proof fn lemma_rows_with(events: Seq<LinkableEvent>, url: Seq<char>, meetings: bool, n: int)
    requires
        0 <= n <= events.len() <= usize::MAX,
    ensures
        forall|k: int|
            0 <= k < rows_with(events, url, meetings, n).len() ==> {
                let at = #[trigger] rows_with(events, url, meetings, n)[k];
                &&& at < n
                &&& events[at as int].link() == Some(url)
                &&& holds_meetings(events[at as int].calendar_id@) == meetings
            },
    decreases n,
{
    if n > 0 {
        lemma_rows_with(events, url, meetings, n - 1);
        let before = rows_with(events, url, meetings, n - 1);
        let all = rows_with(events, url, meetings, n);
        assert forall|k: int| 0 <= k < all.len() implies {
            let at = #[trigger] all[k];
            &&& at < n
            &&& events[at as int].link() == Some(url)
            &&& holds_meetings(events[at as int].calendar_id@) == meetings
        } by {
            if k < before.len() {
                assert(all[k] == before[k]);
            }
        }
    }
}

/// A pair joins a meeting and an entry of another calendar that carry the same
/// link, neither of them taken on a resemblance: the entry does not recur, the
/// meeting is in no group yet, and the two were not refused.
pub proof fn a_pair_shares_its_link(
    events: Seq<LinkableEvent>,
    groups: Seq<EventGroup>,
    declines: Seq<SuggestionDecline>,
    urls: Seq<Seq<char>>,
    k: int,
)
    requires
        events.len() <= usize::MAX,
        0 <= k < pairs_of(events, groups, declines, urls).len(),
    ensures
        ({
            let pair = pairs_of(events, groups, declines, urls)[k];
            let meeting = events[pair.meeting as int];
            let entry = events[pair.event as int];
            &&& pair.meeting < events.len()
            &&& pair.event < events.len()
            &&& urls.contains(pair.join_url)
            &&& meeting.link() == Some(pair.join_url)
            &&& entry.link() == Some(pair.join_url)
            &&& holds_meetings(meeting.calendar_id@)
            &&& !holds_meetings(entry.calendar_id@)
            &&& !entry.recurs
            &&& group_of(groups, meeting.key()) is None
            &&& group_of(groups, entry.key()) is None ==> !is_refused(
                declines,
                meeting.key(),
                entry.key(),
            )
        }),
    decreases urls.len(),
{
    if urls.len() > 0 {
        let front = urls.drop_last();
        let before = pairs_of(events, groups, declines, front);
        let n = events.len() as int;
        if k < before.len() {
            a_pair_shares_its_link(events, groups, declines, front, k);
            let url = before[k].join_url;
            let at = choose|at: int| 0 <= at < front.len() && front[at] == url;
            assert(urls[at] == url);
        } else {
            lemma_rows_with(events, urls.last(), true, n);
            lemma_rows_with(events, urls.last(), false, n);
            let meetings = rows_with(events, urls.last(), true, n);
            let entries = rows_with(events, urls.last(), false, n);
            assert(urls[urls.len() - 1] == urls.last());
            assert(meetings[0] < n && entries[0] < n);
        }
    }
}

/// The rows taken for a link stand for all that carry it: each of them has the
/// key of one that was taken, and none stands above the first.
proof fn lemma_rows_stand_for_all(
    events: Seq<LinkableEvent>,
    url: Seq<char>,
    meetings: bool,
    n: int,
    i: int,
)
    requires
        0 <= i < n <= events.len() <= usize::MAX,
        events[i].link() == Some(url),
        holds_meetings(events[i].calendar_id@) == meetings,
    ensures
        has_key_among(events, rows_with(events, url, meetings, n), events[i].key()),
        rows_with(events, url, meetings, n)[0] <= i,
    decreases n,
{
    let before = rows_with(events, url, meetings, n - 1);
    let all = rows_with(events, url, meetings, n);
    lemma_rows_with(events, url, meetings, n - 1);
    if i < n - 1 {
        lemma_rows_stand_for_all(events, url, meetings, n - 1, i);
    } else if before.len() > 0 {
        assert(before[0] < n - 1);
    }
    if i == n - 1 && !has_key_among(events, before, events[i].key()) {
        assert(all[all.len() - 1] == i);
    } else {
        let k = choose|k: int|
            0 <= k < before.len() && events[(#[trigger] before[k]) as int].key()
                == events[i].key();
        assert(all[k] == before[k]);
        assert(all[0] == before[0]);
    }
}

proof fn lemma_pair_is_first(
    events: Seq<LinkableEvent>,
    groups: Seq<EventGroup>,
    declines: Seq<SuggestionDecline>,
    urls: Seq<Seq<char>>,
    k: int,
)
    requires
        0 <= k < pairs_of(events, groups, declines, urls).len(),
    ensures
        ({
            let pair = pairs_of(events, groups, declines, urls)[k];
            let meetings = rows_with(events, pair.join_url, true, events.len() as int);
            let entries = rows_with(events, pair.join_url, false, events.len() as int);
            &&& pairs_up(events, groups, declines, meetings, entries)
            &&& pair.meeting == meetings[0]
            &&& pair.event == entries[0]
        }),
    decreases urls.len(),
{
    if urls.len() > 0 {
        let before = pairs_of(events, groups, declines, urls.drop_last());
        if k < before.len() {
            lemma_pair_is_first(events, groups, declines, urls.drop_last(), k);
        }
    }
}

/// A pair rests on one meeting and one appointment: of all the rows that carry
/// its link, those of the meetings calendars are one series and those of the
/// others are one appointment. The pair names the first row of each kind.
pub proof fn a_pair_rests_on_one_appointment(
    events: Seq<LinkableEvent>,
    groups: Seq<EventGroup>,
    declines: Seq<SuggestionDecline>,
    urls: Seq<Seq<char>>,
    k: int,
    i: int,
)
    requires
        events.len() <= usize::MAX,
        0 <= k < pairs_of(events, groups, declines, urls).len(),
        0 <= i < events.len(),
        events[i].link() == Some(pairs_of(events, groups, declines, urls)[k].join_url),
    ensures
        ({
            let pair = pairs_of(events, groups, declines, urls)[k];
            if holds_meetings(events[i].calendar_id@) {
                events[i].key() == events[pair.meeting as int].key() && pair.meeting <= i
            } else {
                appointment_of(groups, events[i]) == appointment_of(
                    groups,
                    events[pair.event as int],
                ) && pair.event <= i && !events[pair.event as int].recurs
            }
        }),
{
    let pair = pairs_of(events, groups, declines, urls)[k];
    let n = events.len() as int;
    let kind = holds_meetings(events[i].calendar_id@);
    lemma_pair_is_first(events, groups, declines, urls, k);
    lemma_rows_stand_for_all(events, pair.join_url, kind, n, i);
    let rows = rows_with(events, pair.join_url, kind, n);
    let at = choose|at: int|
        0 <= at < rows.len() && events[(#[trigger] rows[at]) as int].key() == events[i].key();
    assert(appointment_of(groups, events[i]) == appointment_of(groups, events[rows[at] as int]));
    assert(rows[0] == rows[0]);
}

proof fn lemma_links_differ(events: Seq<LinkableEvent>)
    ensures
        links_seen(events).no_duplicates(),
    decreases events.len(),
{
    if events.len() > 0 {
        lemma_links_differ(events.drop_last());
    }
}

proof fn lemma_pairs_come_from(
    events: Seq<LinkableEvent>,
    groups: Seq<EventGroup>,
    declines: Seq<SuggestionDecline>,
    urls: Seq<Seq<char>>,
)
    requires
        urls.no_duplicates(),
    ensures
        forall|k: int|
            0 <= k < pairs_of(events, groups, declines, urls).len() ==> urls.contains(
                (#[trigger] pairs_of(events, groups, declines, urls)[k]).join_url,
            ),
        forall|j: int, k: int|
            0 <= j < k < pairs_of(events, groups, declines, urls).len() ==> (
            #[trigger] pairs_of(events, groups, declines, urls)[j]).join_url != (
            #[trigger] pairs_of(events, groups, declines, urls)[k]).join_url,
    decreases urls.len(),
{
    if urls.len() > 0 {
        let front = urls.drop_last();
        lemma_pairs_come_from(events, groups, declines, front);
        let before = pairs_of(events, groups, declines, front);
        let all = pairs_of(events, groups, declines, urls);
        assert(urls[urls.len() - 1] == urls.last());
        assert forall|k: int| 0 <= k < all.len() implies urls.contains(
            (#[trigger] all[k]).join_url,
        ) by {
            if k < before.len() {
                let at = choose|at: int| 0 <= at < front.len() && front[at] == before[k].join_url;
                assert(urls[at] == all[k].join_url);
            }
        }
        assert forall|j: int, k: int| 0 <= j < k < all.len() implies (#[trigger] all[j]).join_url
            != (#[trigger] all[k]).join_url by {
            assert(all[j] == before[j]);
            if k < before.len() {
                assert(all[k] == before[k]);
            } else {
                let at = choose|at: int| 0 <= at < front.len() && front[at] == before[j].join_url;
                assert(urls[at] != urls[urls.len() - 1]);
            }
        }
    }
}

/// A link makes at most one pair.
pub proof fn a_link_makes_one_pair(
    events: Seq<LinkableEvent>,
    groups: Seq<EventGroup>,
    declines: Seq<SuggestionDecline>,
)
    ensures
        ({
            let pairs = pairs_of(events, groups, declines, links_seen(events));
            forall|j: int, k: int|
                0 <= j < k < pairs.len() ==> (#[trigger] pairs[j]).join_url != (
                #[trigger] pairs[k]).join_url
        }),
{
    lemma_links_differ(events);
    lemma_pairs_come_from(events, groups, declines, links_seen(events));
}

// ---------------------------------------------------------------------------
// When a link makes a pair
// ---------------------------------------------------------------------------

/// A row carries a link, in one of the meetings calendars or in another.
pub open spec fn carries(
    events: Seq<LinkableEvent>,
    url: Seq<char>,
    meetings: bool,
    i: int,
) -> bool {
    &&& 0 <= i < events.len()
    &&& events[i].link() == Some(url)
    &&& ends_with(events[i].calendar_id@, "::meetings"@) == meetings
}

/// The first row of its series that carries a link.
pub open spec fn is_first_of_series(
    events: Seq<LinkableEvent>,
    url: Seq<char>,
    meetings: bool,
    i: int,
) -> bool {
    &&& carries(events, url, meetings, i)
    &&& forall|j: int|
        0 <= j < i && #[trigger] carries(events, url, meetings, j) ==> events[j].key()
            != events[i].key()
}

/// A link identifies one meeting, `m`, and one appointment, by its first row
/// `e`, and nothing stands in the way of the two: no series of the appointment
/// recurs, the meeting is in no group, no member of the appointment's group is of
/// the meeting's calendar, and no copy of the appointment was refused for it.
pub open spec fn identifies(
    events: Seq<LinkableEvent>,
    groups: Seq<EventGroup>,
    declines: Seq<SuggestionDecline>,
    url: Seq<char>,
    m: int,
    e: int,
) -> bool {
    &&& carries(events, url, true, m)
    &&& forall|j: int| #[trigger]
        carries(events, url, true, j) ==> m <= j && events[j].key() == events[m].key()
    &&& carries(events, url, false, e)
    &&& forall|j: int| #[trigger]
        carries(events, url, false, j) ==> e <= j && appointment_of(groups, events[j])
            == appointment_of(groups, events[e])
    &&& forall|j: int| #[trigger]
        is_first_of_series(events, url, false, j) ==> !events[j].recurs
    &&& group_of(groups, events[m].key()) is None
    &&& match group_of(groups, events[e].key()) {
        Some(g) => forall|k: int|
            0 <= k < groups[g].members@.len() ==> {
                let member = #[trigger] groups[g].members@[k];
                member.calendar_id@ != events[m].calendar_id@ && !is_refused(
                    declines,
                    events[m].key(),
                    member.key(),
                )
            },
        None => forall|j: int| #[trigger]
            carries(events, url, false, j) ==> !is_refused(
                declines,
                events[m].key(),
                events[j].key(),
            ),
    }
}

proof fn lemma_firsts(
    events: Seq<LinkableEvent>,
    url: Seq<char>,
    meetings: bool,
    n: int,
    i: usize,
)
    requires
        0 <= n <= events.len() <= usize::MAX,
    ensures
        rows_with(events, url, meetings, n).contains(i) <==> i < n && is_first_of_series(
            events,
            url,
            meetings,
            i as int,
        ),
    decreases n,
{
    if n > 0 {
        let before = rows_with(events, url, meetings, n - 1);
        let all = rows_with(events, url, meetings, n);
        let last = n - 1;
        lemma_firsts(events, url, meetings, n - 1, i);
        lemma_rows_with(events, url, meetings, n - 1);
        let key = events[last].key();
        if has_key_among(events, before, key) {
            let k = choose|k: int|
                0 <= k < before.len() && events[(#[trigger] before[k]) as int].key() == key;
            assert(carries(events, url, meetings, before[k] as int));
        }
        if carries(events, url, meetings, last) && !is_first_of_series(
            events,
            url,
            meetings,
            last,
        ) {
            let j = choose|j: int|
                0 <= j < last && #[trigger] carries(events, url, meetings, j) && events[j].key()
                    == key;
            lemma_rows_stand_for_all(events, url, meetings, last, j);
        }
        if before.contains(i) {
            let k = choose|k: int| 0 <= k < before.len() && before[k] == i;
            assert(all[k] == i);
        }
        if all.contains(i) && i != last {
            let k = choose|k: int| 0 <= k < all.len() && all[k] == i;
            assert(before[k] == i);
        }
        if all.len() > before.len() {
            assert(all[before.len() as int] == last);
        }
    }
}

proof fn lemma_pairs_up(
    events: Seq<LinkableEvent>,
    groups: Seq<EventGroup>,
    declines: Seq<SuggestionDecline>,
    url: Seq<char>,
    m: int,
    e: int,
)
    requires
        events.len() <= usize::MAX,
    ensures
        ({
            let n = events.len() as int;
            let meetings = rows_with(events, url, true, n);
            let entries = rows_with(events, url, false, n);
            pairs_up(events, groups, declines, meetings, entries) && meetings[0] == m && entries[0]
                == e <==> identifies(events, groups, declines, url, m, e)
        }),
{
    let n = events.len() as int;
    let meetings = rows_with(events, url, true, n);
    let entries = rows_with(events, url, false, n);
    lemma_rows_with(events, url, true, n);
    lemma_rows_with(events, url, false, n);
    lemma_ascending_rows(events, url, true, n);
    if pairs_up(events, groups, declines, meetings, entries) && meetings[0] == m && entries[0]
        == e {
        assert(meetings[0] < n && entries[0] < n);
        assert(carries(events, url, true, m) && carries(events, url, false, e));
        assert forall|j: int| #[trigger] carries(events, url, true, j) implies m <= j
            && events[j].key() == events[m].key() by {
            lemma_rows_stand_for_all(events, url, true, n, j);
        }
        assert forall|j: int| #[trigger] carries(events, url, false, j) implies e <= j
            && appointment_of(groups, events[j]) == appointment_of(groups, events[e])
            && exists|k: int|
            0 <= k < entries.len() && events[(#[trigger] entries[k]) as int].key()
                == events[j].key() by {
            lemma_rows_stand_for_all(events, url, false, n, j);
            let k = choose|k: int|
                0 <= k < entries.len() && events[(#[trigger] entries[k]) as int].key()
                    == events[j].key();
            assert(appointment_of(groups, events[entries[k] as int]) == appointment_of(
                groups,
                events[e],
            ));
        }
        assert forall|j: int| #[trigger]
            is_first_of_series(events, url, false, j) implies !events[j].recurs by {
            lemma_firsts(events, url, false, n, j as usize);
            let k = choose|k: int| 0 <= k < entries.len() && entries[k] == j as usize;
            assert(!events[entries[k] as int].recurs);
        }
        if group_of(groups, events[e].key()) is None {
            assert forall|j: int| #[trigger] carries(events, url, false, j) implies !is_refused(
                declines,
                events[m].key(),
                events[j].key(),
            ) by {
                let k = choose|k: int|
                    0 <= k < entries.len() && events[(#[trigger] entries[k]) as int].key()
                        == events[j].key();
                assert(!is_refused(declines, events[m].key(), events[entries[k] as int].key()));
            }
        }
    }
    if identifies(events, groups, declines, url, m, e) {
        lemma_rows_stand_for_all(events, url, true, n, m);
        lemma_rows_stand_for_all(events, url, false, n, e);
        assert(carries(events, url, true, meetings[0] as int));
        assert(carries(events, url, false, entries[0] as int));
        if meetings.len() > 1 {
            assert(meetings[1] < n);
            assert(carries(events, url, true, meetings[1] as int));
            assert(meetings.contains(meetings[1]));
            lemma_firsts(events, url, true, n, meetings[1]);
            assert(meetings[0] < meetings[1]);
        }
        assert forall|k: int| 0 <= k < entries.len() implies appointment_of(
            groups,
            events[(#[trigger] entries[k]) as int],
        ) == appointment_of(groups, events[e]) && !events[entries[k] as int].recurs
            && carries(events, url, false, entries[k] as int) by {
            assert(carries(events, url, false, entries[k] as int));
            assert(entries.contains(entries[k]));
            lemma_firsts(events, url, false, n, entries[k]);
            assert(is_first_of_series(events, url, false, entries[k] as int));
        }
    }
}

proof fn lemma_ascending_rows(
    events: Seq<LinkableEvent>,
    url: Seq<char>,
    meetings: bool,
    n: int,
)
    requires
        0 <= n <= events.len() <= usize::MAX,
    ensures
        forall|j: int, k: int|
            0 <= j < k < rows_with(events, url, meetings, n).len() ==> (
            #[trigger] rows_with(events, url, meetings, n)[j]) < (#[trigger] rows_with(
                events,
                url,
                meetings,
                n,
            )[k]),
    decreases n,
{
    if n > 0 {
        lemma_ascending_rows(events, url, meetings, n - 1);
        lemma_rows_with(events, url, meetings, n - 1);
        let before = rows_with(events, url, meetings, n - 1);
        let all = rows_with(events, url, meetings, n);
        assert forall|j: int, k: int| 0 <= j < k < all.len() implies (#[trigger] all[j]) < (
        #[trigger] all[k]) by {
            assert(all[j] == before[j]);
            if k < before.len() {
                assert(all[k] == before[k]);
            }
        }
    }
}

proof fn lemma_pair_of(
    events: Seq<LinkableEvent>,
    groups: Seq<EventGroup>,
    declines: Seq<SuggestionDecline>,
    urls: Seq<Seq<char>>,
    pair: PairText,
)
    ensures
        pairs_of(events, groups, declines, urls).contains(pair) <==> {
            let meetings = rows_with(events, pair.join_url, true, events.len() as int);
            let entries = rows_with(events, pair.join_url, false, events.len() as int);
            &&& urls.contains(pair.join_url)
            &&& pairs_up(events, groups, declines, meetings, entries)
            &&& pair.meeting == meetings[0]
            &&& pair.event == entries[0]
        },
    decreases urls.len(),
{
    let all = pairs_of(events, groups, declines, urls);
    if urls.len() > 0 {
        let front = urls.drop_last();
        let before = pairs_of(events, groups, declines, front);
        lemma_pair_of(events, groups, declines, front, pair);
        assert(urls[urls.len() - 1] == urls.last());
        if front.contains(pair.join_url) {
            let k = choose|k: int| 0 <= k < front.len() && front[k] == pair.join_url;
            assert(urls[k] == pair.join_url);
        }
        if urls.contains(pair.join_url) && pair.join_url != urls.last() {
            let k = choose|k: int| 0 <= k < urls.len() && urls[k] == pair.join_url;
            assert(front[k] == pair.join_url);
        }
        if before.contains(pair) {
            let k = choose|k: int| 0 <= k < before.len() && before[k] == pair;
            assert(all[k] == pair);
        }
        if all.contains(pair) && !before.contains(pair) {
            let k = choose|k: int| 0 <= k < all.len() && all[k] == pair;
            if k < before.len() {
                assert(before[k] == pair);
            }
        }
        if all.len() > before.len() {
            assert(all[before.len() as int] == all.last());
        }
    }
}

proof fn lemma_link_seen(events: Seq<LinkableEvent>, i: int)
    requires
        0 <= i < events.len(),
        events[i].link() is Some,
    ensures
        links_seen(events).contains(events[i].link()->0),
    decreases events.len(),
{
    let front = events.drop_last();
    let before = links_seen(front);
    let all = links_seen(events);
    if i < front.len() {
        lemma_link_seen(front, i);
        assert(front[i] == events[i]);
        let k = choose|k: int| 0 <= k < before.len() && before[k] == events[i].link()->0;
        assert(all[k] == before[k]);
    } else if !before.contains(events[i].link()->0) {
        assert(all[before.len() as int] == events[i].link()->0);
    }
}

/// A link makes a pair exactly where it identifies one meeting and one
/// appointment with nothing in their way, and the pair is of these two.
pub proof fn a_link_makes_a_pair_where_it_identifies_one(
    events: Seq<LinkableEvent>,
    groups: Seq<EventGroup>,
    declines: Seq<SuggestionDecline>,
    pair: PairText,
)
    requires
        events.len() <= usize::MAX,
    ensures
        pairs_of(events, groups, declines, links_seen(events)).contains(pair) <==> identifies(
            events,
            groups,
            declines,
            pair.join_url,
            pair.meeting as int,
            pair.event as int,
        ),
{
    let m = pair.meeting as int;
    let e = pair.event as int;
    lemma_pair_of(events, groups, declines, links_seen(events), pair);
    lemma_pairs_up(events, groups, declines, pair.join_url, m, e);
    if identifies(events, groups, declines, pair.join_url, m, e) {
        assert(carries(events, pair.join_url, true, m));
        lemma_link_seen(events, m);
    }
}

/// Slashes at the end of a path do not count, and everything else does: two
/// spellings that share all but the query are one link only where they share that
/// too.
pub proof fn slashes_at_the_end_do_not_count(url: UrlText, other: Option<Seq<char>>)
    ensures
        folded((UrlText { path: url.path.push('/'), ..url })) == folded(url),
        folded((UrlText { query: other, ..url })) == folded(url) ==> other == url.query,
        url.path.len() > 0 && url.path.last() != '/' ==> folded(url) == url.scheme + "://"@ + (
        match url.host {
            Some(host) => host,
            None => Seq::empty(),
        }) + (match url.port {
            Some(port) => ":"@ + decimal(port as nat),
            None => Seq::empty(),
        }) + url.path + (match url.query {
            Some(query) => "?"@ + query,
            None => Seq::empty(),
        }),
{
    assert(url.path.push('/').drop_last() =~= url.path);
    reveal_strlit("?");
    let changed = UrlText { query: other, ..url };
    if folded(changed) == folded(url) {
        let host = match url.host {
            Some(host) => host,
            None => Seq::empty(),
        };
        let port = match url.port {
            Some(port) => ":"@ + decimal(port as nat),
            None => Seq::empty(),
        };
        let front = url.scheme + "://"@ + host + port + without_slashes(url.path);
        let n = front.len() as int;
        let mine = match url.query {
            Some(query) => "?"@ + query,
            None => Seq::empty(),
        };
        let theirs = match other {
            Some(query) => "?"@ + query,
            None => Seq::empty(),
        };
        assert(folded(url) == front + mine);
        assert(folded(changed) == front + theirs);
        assert((front + mine).skip(n) =~= mine);
        assert((front + theirs).skip(n) =~= theirs);
        if url.query is Some && other is Some {
            assert(mine.skip(1) =~= url.query->0);
            assert(theirs.skip(1) =~= other->0);
        }
    }
}

} // verus!
