//! Hiding a provider-side meeting that already has a calendar entry.
//!
//! A videoconference account contributes a read-only calendar of its own
//! meetings, so a meeting created in the provider's web UI still shows up. But
//! most meetings DO have a calendar entry, and left alone those appear twice.
//! The filter is the **join URL**: an exact key, not a resemblance.

use vstd::prelude::*;

use crate::conferencing::{conference_in, detect_conference, ConferenceSources, SourceTexts};
use crate::group_suggestion::{holds_meetings, is_meeting_calendar};
use crate::order::{
    is_ascending, lemma_ascending, lemma_kept, pick, positions, positions_below, those,
};
use crate::text::{ends_with, optional_str, optional_text, same};

verus! {

/// The least a row needs for the duplicate filter.
#[derive(Debug, Clone, PartialEq, Eq)]
pub struct MeetingFilterEvent {
    pub calendar_id: String,
    pub location: Option<String>,
    pub description: Option<String>,
    /// Whether this row is already a member of a group. A grouped meeting row
    /// must NOT be dropped: the folding hides it then, while COUNTING it.
    pub grouped: bool,
}

/// The join URL that a location and a description carry.
pub open spec fn join_url_in(location: Option<Seq<char>>, description: Option<Seq<char>>) -> Option<
    Seq<char>,
> {
    match conference_in(
        SourceTexts {
            provider_field: None,
            icalendar_conference: Seq::empty(),
            vendor_properties: Seq::empty(),
            location,
            description,
        },
    ) {
        Some(link) => Some(link.join_url),
        None => None,
    }
}

/// The join URL that a location and a description carry, or `None`.
pub fn join_url_of(location: Option<&str>, description: Option<&str>) -> (r: Option<String>)
    ensures
        optional_text(r) == join_url_in(optional_str(location), optional_str(description)),
{
    let none: &[&str] = &[];
    let sources = ConferenceSources {
        provider_field: None,
        icalendar_conference: none,
        vendor_properties: none,
        location,
        description,
    };
    assert(sources@.icalendar_conference =~= Seq::empty());
    assert(sources@.vendor_properties =~= Seq::empty());
    match detect_conference(&sources) {
        Some(link) => Some(link.join_url),
        None => None,
    }
}

/// An optional text, borrowed.
pub(crate) fn borrowed(o: &Option<String>) -> (r: Option<&str>)
    ensures
        optional_str(r) == optional_text(*o),
{
    match o {
        Some(s) => Some(s.as_str()),
        None => None,
    }
}

impl MeetingFilterEvent {
    /// The join URL the row carries.
    pub open spec fn link(self) -> Option<Seq<char>> {
        join_url_in(optional_text(self.location), optional_text(self.description))
    }
}

/// The join URL a row carries, or `None`. The same reading the detection gives,
/// because it IS the detection.
pub fn meeting_join_url(event: &MeetingFilterEvent) -> (r: Option<String>)
    ensures
        optional_text(r) == event.link(),
{
    join_url_of(borrowed(&event.location), borrowed(&event.description))
}

/// A real event carries this link.
pub open spec fn is_claimed(events: Seq<MeetingFilterEvent>, url: Seq<char>) -> bool {
    exists|i: int|
        0 <= i < events.len() && !holds_meetings((#[trigger] events[i]).calendar_id@)
            && events[i].link() == Some(url)
}

/// The row survives: it is a real event, or grouped, or its meeting is not
/// shown by a real event in view.
pub open spec fn survives(events: Seq<MeetingFilterEvent>, i: int) -> bool {
    ||| !holds_meetings(events[i].calendar_id@)
    ||| events[i].grouped
    ||| match events[i].link() {
        None => true,
        Some(url) => !is_claimed(events, url),
    }
}

fn claimed(events: &[MeetingFilterEvent], links: &[Option<String>], url: &str) -> (r: bool)
    requires
        links@.len() == events@.len(),
        forall|i: int|
            0 <= i < events@.len() ==> optional_text(#[trigger] links@[i]) == events@[i].link(),
    ensures
        r == is_claimed(events@, url@),
{
    let mut i: usize = 0;
    while i < events.len()
        invariant
            i <= events.len(),
            links@.len() == events@.len(),
            forall|j: int|
                0 <= j < events@.len() ==> optional_text(#[trigger] links@[j])
                    == events@[j].link(),
            forall|j: int|
                0 <= j < i ==> !(!holds_meetings((#[trigger] events@[j]).calendar_id@)
                    && events@[j].link() == Some(url@)),
        decreases events.len() - i,
    {
        let carries = match &links[i] {
            Some(link) => same(link.as_str(), url),
            None => false,
        };
        assert(carries == (events@[i as int].link() == Some(url@)));
        if carries && !is_meeting_calendar(events[i].calendar_id.as_str()) {
            return true;
        }
        i = i + 1;
    }
    false
}

/// Which rows survive the duplicate filter, as positions in the input.
///
/// Real events are never dropped, only the synthesized ones, and only when a
/// real event in view already shows that exact meeting.
pub fn without_duplicate_meetings(events: &[MeetingFilterEvent]) -> (r: Vec<usize>)
    ensures
        r@ == those(
            positions(events@.len() as int),
            |i: usize| survives(events@, i as int),
        ),
{
    let mut links: Vec<Option<String>> = Vec::new();
    let mut i: usize = 0;
    while i < events.len()
        invariant
            i <= events.len(),
            links@.len() == i,
            forall|j: int|
                0 <= j < i ==> optional_text(#[trigger] links@[j]) == events@[j].link(),
        decreases events.len() - i,
    {
        links.push(meeting_join_url(&events[i]));
        i = i + 1;
    }
    let all = positions_below(events.len());
    let links_ref = links.as_slice();
    let ghost keep = |i: usize| survives(events@, i as int);
    let wanted = |i: usize| -> (c: bool)
        requires
            i < events@.len(),
            links_ref@.len() == events@.len(),
            forall|j: int|
                0 <= j < events@.len() ==> optional_text(#[trigger] links_ref@[j])
                    == events@[j].link(),
        ensures
            c == survives(events@, i as int),
        {
            if !is_meeting_calendar(events[i].calendar_id.as_str()) || events[i].grouped {
                true
            } else {
                match &links_ref[i] {
                    None => true,
                    Some(url) => !claimed(events, links_ref, url.as_str()),
                }
            }
        };
    pick(all.as_slice(), events.len(), wanted, Ghost(keep))
}

/// Real events are never dropped.
pub proof fn real_events_are_never_dropped(events: Seq<MeetingFilterEvent>, i: int)
    requires
        0 <= i < events.len() <= usize::MAX,
        !holds_meetings(events[i].calendar_id@) || events[i].grouped,
    ensures
        those(positions(events.len() as int), |i: usize| survives(events, i as int)).contains(
            i as usize,
        ),
{
    let all = positions(events.len() as int);
    let keep = |i: usize| survives(events, i as int);
    crate::order::lemma_those(all, keep);
    assert(all[i] == i as usize);
    assert(all.contains(i as usize) && keep(i as usize));
}

/// One meeting row never suppresses another: where no real event carries a
/// link, every row that carries it stays.
pub proof fn one_meeting_row_never_suppresses_another(
    events: Seq<MeetingFilterEvent>,
    i: int,
)
    requires
        0 <= i < events.len() <= usize::MAX,
        events[i].link() matches Some(url) ==> !is_claimed(events, url),
    ensures
        those(positions(events.len() as int), |i: usize| survives(events, i as int)).contains(
            i as usize,
        ),
{
    let all = positions(events.len() as int);
    let keep = |i: usize| survives(events, i as int);
    crate::order::lemma_those(all, keep);
    assert(all[i] == i as usize);
    assert(all.contains(i as usize) && keep(i as usize));
}

/// A row is dropped exactly where it is a meeting of its own that is in no group
/// and some real event in view carries its link. The rows keep their order.
pub proof fn a_meeting_goes_where_a_real_event_shows_it(
    events: Seq<MeetingFilterEvent>,
    i: usize,
)
    requires
        i < events.len() <= usize::MAX,
    ensures
        ({
            let kept = those(
                positions(events.len() as int),
                |i: usize| survives(events, i as int),
            );
            &&& !kept.contains(i) <==> {
                &&& ends_with(events[i as int].calendar_id@, "::meetings"@)
                &&& !events[i as int].grouped
                &&& events[i as int].link() is Some
                &&& exists|j: int|
                    0 <= j < events.len() && !ends_with(
                        (#[trigger] events[j]).calendar_id@,
                        "::meetings"@,
                    ) && events[j].link() == events[i as int].link()
            }
            &&& is_ascending(kept)
        }),
{
    let all = positions(events.len() as int);
    let keep = |i: usize| survives(events, i as int);
    lemma_kept(all, keep, i);
    assert(all[i as int] == i);
    assert(is_ascending(all));
    lemma_ascending(all, keep);
    if events[i as int].link() is Some {
        let url = events[i as int].link()->0;
        if is_claimed(events, url) {
            let j = choose|j: int|
                0 <= j < events.len() && !holds_meetings((#[trigger] events[j]).calendar_id@)
                    && events[j].link() == Some(url);
            assert(!ends_with(events[j].calendar_id@, "::meetings"@));
        }
        if exists|j: int|
            0 <= j < events.len() && !ends_with(
                (#[trigger] events[j]).calendar_id@,
                "::meetings"@,
            ) && events[j].link() == events[i as int].link() {
            let j = choose|j: int|
                0 <= j < events.len() && !ends_with(
                    (#[trigger] events[j]).calendar_id@,
                    "::meetings"@,
                ) && events[j].link() == events[i as int].link();
            assert(!holds_meetings(events[j].calendar_id@));
        }
    }
}

} // verus!
