//! Recognising a copy: "these two rows look like one appointment."
//!
//! Events are never grouped by themselves on a resemblance. What this produces
//! is an OFFER, and only the user's confirmation makes a group.
//!
//! - [`suggest_group_mate`] answers "which of these is a copy of THAT one".
//! - [`find_group_suggestions`] answers whether there are copies in a day at
//!   all. It speaks unprompted, so it has to be far more careful.
//!
//! Both take rows that already carry a `series_id`: only a rendered row knows
//! which series it belongs to.

use vstd::prelude::*;

use crate::civil::{parse_instant, read_instant};
use crate::event_group::{is_grouped, normalized_title, title_key, EventGroup, EventKey};
use crate::suggestion_decline::SuggestionDecline;
use crate::text::{byte_len, chars_of, ends_with, has_suffix, same, string_of};

verus! {

/// The suffix that turns an account id into its meetings-calendar id.
pub const MEETINGS_CALENDAR_SUFFIX: &'static str = "::meetings";

/// This is the read-only calendar of an account's meetings.
pub open spec fn holds_meetings(calendar_id: Seq<char>) -> bool {
    ends_with(calendar_id, MEETINGS_CALENDAR_SUFFIX@)
}

/// Whether this calendar is the read-only calendar of an account's meetings.
pub fn is_meeting_calendar(calendar_id: &str) -> (r: bool)
    ensures
        r == holds_meetings(calendar_id@),
{
    has_suffix(calendar_id, MEETINGS_CALENDAR_SUFFIX)
}

/// One row, reduced to what recognising a copy needs.
#[derive(Debug, Clone, PartialEq, Eq)]
pub struct SuggestibleEvent {
    pub calendar_id: String,
    /// The id this row would be GROUPED under: the series master.
    pub series_id: String,
    pub title: String,
    /// RFC 3339, or a bare `YYYY-MM-DD` for an all-day row.
    pub start: String,
    pub all_day: bool,
}

impl SuggestibleEvent {
    pub open spec fn key(self) -> EventKey {
        EventKey { calendar: self.calendar_id@, event: self.series_id@ }
    }
}

/// Two rows that look like one appointment, as positions in the input.
#[derive(Debug, Clone, Copy, PartialEq, Eq, Structural)]
pub struct GroupSuggestion {
    pub first: usize,
    pub second: usize,
}

/// Everything [`find_group_suggestions`] needs.
#[derive(Debug, Clone, PartialEq, Eq)]
pub struct SuggestionInput {
    pub events: Vec<SuggestibleEvent>,
    pub groups: Vec<EventGroup>,
    pub declines: Vec<SuggestionDecline>,
}

/// Everything [`suggest_group_mate`] needs.
#[derive(Debug, Clone, PartialEq, Eq)]
pub struct MateInput {
    pub anchor: SuggestibleEvent,
    pub candidates: Vec<SuggestibleEvent>,
}

/// What "the same time" means for one row: the day of an all-day row, the
/// instant of a timed one. A start nothing can be made of matches NOTHING.
pub enum When {
    Day(Seq<char>),
    At(int),
    Unreadable,
}

/// The first ten characters of a start, which is its date however the rest is
/// written.
pub open spec fn day_part(start: Seq<char>) -> Seq<char> {
    if start.len() > 10 {
        start.take(10)
    } else {
        start
    }
}

/// When a row is.
pub open spec fn when_of(event: SuggestibleEvent) -> When {
    if event.all_day {
        let day = day_part(event.start@);
        if byte_len(day) < 10 {
            When::Unreadable
        } else {
            When::Day(day)
        }
    } else {
        match read_instant(event.start@) {
            Some(at) => When::At(at.millis()),
            None => When::Unreadable,
        }
    }
}

/// Two rows are at the same time.
pub open spec fn at_same_time(a: When, b: When) -> bool {
    !(a is Unreadable) && a == b
}

enum WhenKey {
    Day(String),
    At(i64),
    Unreadable,
}

spec fn when_text(w: WhenKey) -> When {
    match w {
        WhenKey::Day(d) => When::Day(d@),
        WhenKey::At(ms) => When::At(ms as int),
        WhenKey::Unreadable => When::Unreadable,
    }
}

/// The first ten characters of a start.
pub(crate) fn take_day(start: &str) -> (r: String)
    ensures
        r@ == day_part(start@),
{
    let chars = chars_of(start);
    if chars.len() > 10 {
        let day = string_of(&chars[0..10]);
        assert(day@ =~= start@.take(10));
        day
    } else {
        start.to_owned()
    }
}

fn when_key(event: &SuggestibleEvent) -> (r: WhenKey)
    ensures
        when_text(r) == when_of(*event),
{
    if event.all_day {
        let day = take_day(event.start.as_str());
        if day.as_str().len() < 10 {
            return WhenKey::Unreadable;
        }
        return WhenKey::Day(day);
    }
    match parse_instant(event.start.as_str()) {
        Some(at) => WhenKey::At(at.millis()),
        None => WhenKey::Unreadable,
    }
}

fn same_time(a: &WhenKey, b: &WhenKey) -> (r: bool)
    ensures
        r == at_same_time(when_text(*a), when_text(*b)),
{
    match (a, b) {
        (WhenKey::Day(x), WhenKey::Day(y)) => same(x.as_str(), y.as_str()),
        (WhenKey::At(x), WhenKey::At(y)) => *x == *y,
        _ => false,
    }
}

/// Two rows look like one appointment: the SAME title, the SAME time, and a
/// DIFFERENT calendar.
pub open spec fn looks_like(a: SuggestibleEvent, b: SuggestibleEvent) -> bool {
    &&& title_key(a.title@).len() > 0
    &&& title_key(b.title@) == title_key(a.title@)
    &&& b.calendar_id@ != a.calendar_id@
    &&& at_same_time(when_of(b), when_of(a))
}

fn look_alike(a: &SuggestibleEvent, b: &SuggestibleEvent) -> (r: bool)
    ensures
        r == looks_like(*a, *b),
{
    let title = normalized_title(a.title.as_str());
    if title.as_str().is_empty() || same(b.calendar_id.as_str(), a.calendar_id.as_str()) {
        return false;
    }
    let other = normalized_title(b.title.as_str());
    same(other.as_str(), title.as_str()) && same_time(&when_key(b), &when_key(a))
}

/// The row that most looks like a copy of `anchor`, or `None`.
///
/// Ties go to the first candidate in the order the caller supplied, which is
/// the order the user sees.
pub fn suggest_group_mate(anchor: &SuggestibleEvent, candidates: &[SuggestibleEvent]) -> (r: Option<
    usize,
>)
    ensures
        match r {
            Some(i) => i < candidates@.len() && looks_like(*anchor, candidates@[i as int])
                && forall|j: int| 0 <= j < i ==> !looks_like(*anchor, #[trigger] candidates@[j]),
            None => forall|j: int|
                0 <= j < candidates@.len() ==> !looks_like(*anchor, #[trigger] candidates@[j]),
        },
{
    let mut i: usize = 0;
    while i < candidates.len()
        invariant
            i <= candidates.len(),
            forall|j: int| 0 <= j < i ==> !looks_like(*anchor, #[trigger] candidates@[j]),
        decreases candidates.len() - i,
    {
        if look_alike(anchor, &candidates[i]) {
            return Some(i);
        }
        i = i + 1;
    }
    None
}

/// The user has refused this pair, whichever way round it was named.
pub open spec fn is_refused(declines: Seq<SuggestionDecline>, x: EventKey, y: EventKey) -> bool {
    exists|i: int|
        0 <= i < declines.len() && (#[trigger] declines[i])@.refuses() && declines[i]@.names(x, y)
}

/// Whether the user has refused this pair.
pub(crate) fn refused(
    declines: &[SuggestionDecline],
    a: (&str, &str),
    b: (&str, &str),
) -> (r: bool)
    ensures
        r == is_refused(
            declines@,
            (EventKey { calendar: a.0@, event: a.1@ }),
            (EventKey { calendar: b.0@, event: b.1@ }),
        ),
{
    let ghost x = EventKey { calendar: a.0@, event: a.1@ };
    let ghost y = EventKey { calendar: b.0@, event: b.1@ };
    let mut i: usize = 0;
    while i < declines.len()
        invariant
            i <= declines.len(),
            x == (EventKey { calendar: a.0@, event: a.1@ }),
            y == (EventKey { calendar: b.0@, event: b.1@ }),
            forall|j: int|
                0 <= j < i ==> !((#[trigger] declines@[j])@.refuses() && declines@[j]@.names(x, y)),
        decreases declines.len() - i,
    {
        let d = &declines[i];
        let straight = same(d.calendar_a.as_str(), a.0) && same(d.event_a.as_str(), a.1) && same(
            d.calendar_b.as_str(),
            b.0,
        ) && same(d.event_b.as_str(), b.1);
        let crossed = same(d.calendar_a.as_str(), b.0) && same(d.event_a.as_str(), b.1) && same(
            d.calendar_b.as_str(),
            a.0,
        ) && same(d.event_b.as_str(), a.1);
        if d.is_declined() && (straight || crossed) {
            assert(declines@[i as int]@.refuses() && declines@[i as int]@.names(x, y));
            return true;
        }
        i = i + 1;
    }
    false
}

/// A row that can be offered at all: not a meeting row, not grouped already,
/// and not part of an offer.
pub open spec fn may_be_offered(
    event: SuggestibleEvent,
    groups: Seq<EventGroup>,
    spoken_for: Seq<EventKey>,
) -> bool {
    &&& !spoken_for.contains(event.key())
    &&& !is_grouped(groups, event.key())
    &&& !holds_meetings(event.calendar_id@)
}

/// The first row from `j` on that is offered as a copy of row `i`.
pub open spec fn offered_mate(
    events: Seq<SuggestibleEvent>,
    groups: Seq<EventGroup>,
    declines: Seq<SuggestionDecline>,
    spoken_for: Seq<EventKey>,
    i: int,
    j: int,
) -> Option<int>
    decreases events.len() - j,
{
    if j >= events.len() {
        None
    } else if may_be_offered(events[j], groups, spoken_for) && looks_like(events[i], events[j])
        && !is_refused(declines, events[i].key(), events[j].key()) {
        Some(j)
    } else {
        offered_mate(events, groups, declines, spoken_for, i, j + 1)
    }
}

/// The offers among the first `n` rows, and the rows they speak for.
pub open spec fn offers(
    events: Seq<SuggestibleEvent>,
    groups: Seq<EventGroup>,
    declines: Seq<SuggestionDecline>,
    n: int,
) -> (Seq<GroupSuggestion>, Seq<EventKey>)
    decreases n,
{
    if n <= 0 {
        (Seq::empty(), Seq::empty())
    } else {
        let (out, spoken_for) = offers(events, groups, declines, n - 1);
        if !may_be_offered(events[n - 1], groups, spoken_for) {
            (out, spoken_for)
        } else {
            match offered_mate(events, groups, declines, spoken_for, n - 1, n) {
                None => (out, spoken_for),
                Some(j) => (
                    out.push(GroupSuggestion { first: (n - 1) as usize, second: j as usize }),
                    spoken_for.push(events[n - 1].key()).push(events[j].key()),
                ),
            }
        }
    }
}

/// What the rows at some positions are known by.
spec fn keys_at(events: Seq<SuggestibleEvent>, at: Seq<usize>) -> Seq<EventKey> {
    Seq::new(at.len(), |i: int| events[at[i] as int].key())
}

fn offerable(
    events: &[SuggestibleEvent],
    groups: &[EventGroup],
    spoken_for: &[usize],
    i: usize,
) -> (r: bool)
    requires
        i < events@.len(),
        forall|k: int| 0 <= k < spoken_for@.len() ==> (#[trigger] spoken_for@[k]) < events@.len(),
    ensures
        r == may_be_offered(events@[i as int], groups@, keys_at(events@, spoken_for@)),
{
    let event = &events[i];
    let ghost keys = keys_at(events@, spoken_for@);
    if is_meeting_calendar(event.calendar_id.as_str()) {
        return false;
    }
    proof {
        crate::event_group::lemma_group_of(groups@, event.key());
    }
    if crate::event_group::find_group(
        groups,
        event.calendar_id.as_str(),
        event.series_id.as_str(),
    ).is_some() {
        return false;
    }
    let mut k: usize = 0;
    while k < spoken_for.len()
        invariant
            k <= spoken_for.len(),
            i < events@.len(),
            *event == events@[i as int],
            keys == keys_at(events@, spoken_for@),
            forall|j: int|
                0 <= j < spoken_for@.len() ==> (#[trigger] spoken_for@[j]) < events@.len(),
            forall|j: int| 0 <= j < k ==> #[trigger] keys[j] != event.key(),
        decreases spoken_for.len() - k,
    {
        let other = &events[spoken_for[k]];
        assert(keys[k as int] == other.key());
        if same(other.calendar_id.as_str(), event.calendar_id.as_str()) && same(
            other.series_id.as_str(),
            event.series_id.as_str(),
        ) {
            assert(keys.contains(event.key()));
            return false;
        }
        k = k + 1;
    }
    true
}

/// Copies worth offering, among the rows of ONE day.
///
/// Never about rows that are already grouped, never about a pair the user has
/// DECLINED, and never about a meeting row, which carries its provider's own
/// identity. At most one pair per row.
pub fn find_group_suggestions(
    events: &[SuggestibleEvent],
    groups: &[EventGroup],
    declines: &[SuggestionDecline],
) -> (r: Vec<GroupSuggestion>)
    ensures
        r@ == offers(events@, groups@, declines@, events@.len() as int).0,
{
    let mut out: Vec<GroupSuggestion> = Vec::new();
    let mut spoken_for: Vec<usize> = Vec::new();
    let mut i: usize = 0;
    assert(keys_at(events@, spoken_for@) =~= Seq::empty());
    while i < events.len()
        invariant
            i <= events.len(),
            forall|k: int|
                0 <= k < spoken_for@.len() ==> (#[trigger] spoken_for@[k]) < events@.len(),
            offers(events@, groups@, declines@, i as int) == (
                out@,
                keys_at(events@, spoken_for@),
            ),
        decreases events.len() - i,
    {
        let ghost keys = keys_at(events@, spoken_for@);
        if offerable(events, groups, spoken_for.as_slice(), i) {
            let mut j: usize = i + 1;
            let mut found: Option<usize> = None;
            while j < events.len() && found.is_none()
                invariant
                    i < j <= events.len(),
                    keys == keys_at(events@, spoken_for@),
                    forall|k: int|
                        0 <= k < spoken_for@.len() ==> (#[trigger] spoken_for@[k]) < events@.len(),
                    match found {
                        Some(m) => m < events@.len() && offered_mate(
                            events@,
                            groups@,
                            declines@,
                            keys,
                            i as int,
                            i + 1,
                        ) == Some(m as int),
                        None => offered_mate(
                            events@,
                            groups@,
                            declines@,
                            keys,
                            i as int,
                            i + 1,
                        ) == offered_mate(
                            events@,
                            groups@,
                            declines@,
                            keys,
                            i as int,
                            j as int,
                        ),
                    },
                decreases events.len() - j,
            {
                if offerable(events, groups, spoken_for.as_slice(), j) && look_alike(
                    &events[i],
                    &events[j],
                ) && !refused(
                    declines,
                    (events[i].calendar_id.as_str(), events[i].series_id.as_str()),
                    (events[j].calendar_id.as_str(), events[j].series_id.as_str()),
                ) {
                    found = Some(j);
                }
                j = j + 1;
            }
            if let Some(m) = found {
                out.push(GroupSuggestion { first: i, second: m });
                spoken_for.push(i);
                spoken_for.push(m);
                assert(keys_at(events@, spoken_for@) =~= keys.push(events@[i as int].key()).push(
                    events@[m as int].key(),
                ));
            }
        }
        i = i + 1;
    }
    out
}

/// What holds of an offer: an earlier and a later row that look like one
/// appointment, are not grouped, hold no meetings, and were not refused.
pub open spec fn is_offer(
    events: Seq<SuggestibleEvent>,
    groups: Seq<EventGroup>,
    declines: Seq<SuggestionDecline>,
    offer: GroupSuggestion,
) -> bool {
    &&& offer.first < offer.second < events.len()
    &&& {
        let a = events[offer.first as int];
        let b = events[offer.second as int];
        &&& looks_like(a, b)
        &&& !is_grouped(groups, a.key()) && !is_grouped(groups, b.key())
        &&& !holds_meetings(a.calendar_id@) && !holds_meetings(b.calendar_id@)
        &&& !is_refused(declines, a.key(), b.key())
    }
}

proof fn lemma_offered_mate(
    events: Seq<SuggestibleEvent>,
    groups: Seq<EventGroup>,
    declines: Seq<SuggestionDecline>,
    spoken_for: Seq<EventKey>,
    i: int,
    j: int,
)
    ensures
        offered_mate(events, groups, declines, spoken_for, i, j) matches Some(m) ==> j <= m
            < events.len() && may_be_offered(events[m], groups, spoken_for) && looks_like(
            events[i],
            events[m],
        ) && !is_refused(declines, events[i].key(), events[m].key()),
    decreases events.len() - j,
{
    if j < events.len() {
        lemma_offered_mate(events, groups, declines, spoken_for, i, j + 1);
    }
}

/// The rows an offer speaks for.
pub open spec fn speaks_for(
    events: Seq<SuggestibleEvent>,
    offer: GroupSuggestion,
    key: EventKey,
) -> bool {
    events[offer.first as int].key() == key || events[offer.second as int].key() == key
}

/// Every offer is a fair one, and no event is offered twice.
pub proof fn each_event_is_offered_at_most_once(
    events: Seq<SuggestibleEvent>,
    groups: Seq<EventGroup>,
    declines: Seq<SuggestionDecline>,
    n: int,
)
    requires
        0 <= n <= events.len() <= usize::MAX,
    ensures
        ({
            let (out, spoken_for) = offers(events, groups, declines, n);
            &&& forall|k: int|
                0 <= k < out.len() ==> is_offer(events, groups, declines, #[trigger] out[k])
            &&& forall|k: int, key: EventKey|
                0 <= k < out.len() && #[trigger] speaks_for(events, out[k], key)
                    ==> spoken_for.contains(key)
            &&& forall|k: int, m: int, key: EventKey|
                0 <= k < m < out.len() && #[trigger] speaks_for(events, out[k], key)
                    ==> !#[trigger] speaks_for(events, out[m], key)
        }),
    decreases n,
{
    if n > 0 {
        each_event_is_offered_at_most_once(events, groups, declines, n - 1);
        let (before, known) = offers(events, groups, declines, n - 1);
        let (out, spoken_for) = offers(events, groups, declines, n);
        lemma_offered_mate(events, groups, declines, known, n - 1, n);
        if out.len() > before.len() {
            let new = out.last();
            let a = events[new.first as int].key();
            let b = events[new.second as int].key();
            assert(out =~= before.push(new));
            assert(spoken_for =~= known.push(a).push(b));
            assert(spoken_for[known.len() as int] == a);
            assert(spoken_for[known.len() as int + 1] == b);
            assert forall|key: EventKey| known.contains(key) implies spoken_for.contains(key) by {
                let i = choose|i: int| 0 <= i < known.len() && known[i] == key;
                assert(spoken_for[i] == key);
            }
            assert forall|k: int, key: EventKey|
                0 <= k < out.len() && #[trigger] speaks_for(
                    events,
                    out[k],
                    key,
                ) implies spoken_for.contains(key) by {
                if k < before.len() {
                    assert(speaks_for(events, before[k], key));
                }
            }
            assert forall|k: int, m: int, key: EventKey|
                0 <= k < m < out.len() && #[trigger] speaks_for(
                    events,
                    out[k],
                    key,
                ) implies !#[trigger] speaks_for(events, out[m], key) by {
                assert(speaks_for(events, before[k], key));
                if m < before.len() {
                    assert(!speaks_for(events, before[m], key));
                }
            }
        }
    }
}

/// Two rows look like one appointment both ways round: their titles are the same
/// but for case and white space, and say something, they stand in different
/// calendars, and both are all-day on the same day, or both timed at the same
/// instant.
pub proof fn what_looks_like_a_copy(a: SuggestibleEvent, b: SuggestibleEvent)
    ensures
        looks_like(a, b) <==> {
            &&& title_key(a.title@) == title_key(b.title@)
            &&& title_key(a.title@).len() > 0
            &&& a.calendar_id@ != b.calendar_id@
            &&& a.all_day == b.all_day
            &&& if a.all_day {
                day_part(a.start@) == day_part(b.start@) && byte_len(day_part(a.start@)) >= 10
            } else {
                read_instant(a.start@) is Some && read_instant(b.start@) is Some && read_instant(
                    a.start@,
                )->0.millis() == read_instant(b.start@)->0.millis()
            }
        },
        looks_like(a, b) <==> looks_like(b, a),
{
}

/// A row and a later one could be offered as a pair.
pub open spec fn is_fair(
    events: Seq<SuggestibleEvent>,
    groups: Seq<EventGroup>,
    declines: Seq<SuggestionDecline>,
    i: int,
    j: int,
) -> bool {
    &&& 0 <= i < j < events.len()
    &&& looks_like(events[i], events[j])
    &&& !is_grouped(groups, events[i].key()) && !is_grouped(groups, events[j].key())
    &&& !holds_meetings(events[i].calendar_id@) && !holds_meetings(events[j].calendar_id@)
    &&& !is_refused(declines, events[i].key(), events[j].key())
}

/// One of the first `n` offers speaks for an event.
pub open spec fn is_spoken_for(
    events: Seq<SuggestibleEvent>,
    out: Seq<GroupSuggestion>,
    n: int,
    key: EventKey,
) -> bool {
    exists|k: int| 0 <= k < n && #[trigger] speaks_for(events, out[k], key)
}

proof fn lemma_nearest_mate(
    events: Seq<SuggestibleEvent>,
    groups: Seq<EventGroup>,
    declines: Seq<SuggestionDecline>,
    spoken_for: Seq<EventKey>,
    i: int,
    j: int,
    m: int,
)
    requires
        0 <= i < j <= m < events.len(),
        is_fair(events, groups, declines, i, m),
        !spoken_for.contains(events[m].key()),
    ensures
        offered_mate(events, groups, declines, spoken_for, i, j) is Some,
        offered_mate(events, groups, declines, spoken_for, i, j)->0 <= m,
    decreases events.len() - j,
{
    if j < m && !(may_be_offered(events[j], groups, spoken_for) && looks_like(
        events[i],
        events[j],
    ) && !is_refused(declines, events[i].key(), events[j].key())) {
        lemma_nearest_mate(events, groups, declines, spoken_for, i, j + 1, m);
    }
}

proof fn lemma_spoken(
    events: Seq<SuggestibleEvent>,
    groups: Seq<EventGroup>,
    declines: Seq<SuggestionDecline>,
    n: int,
    key: EventKey,
)
    requires
        0 <= n <= events.len() <= usize::MAX,
    ensures
        ({
            let (out, spoken_for) = offers(events, groups, declines, n);
            spoken_for.contains(key) <==> is_spoken_for(events, out, out.len() as int, key)
        }),
    decreases n,
{
    let (out, spoken_for) = offers(events, groups, declines, n);
    if n > 0 {
        lemma_spoken(events, groups, declines, n - 1, key);
        let (before, known) = offers(events, groups, declines, n - 1);
        lemma_offered_mate(events, groups, declines, known, n - 1, n);
        if out.len() > before.len() {
            let new = out.last();
            let a = events[new.first as int].key();
            let b = events[new.second as int].key();
            assert(out =~= before.push(new));
            assert(spoken_for =~= known.push(a).push(b));
            assert(spoken_for[known.len() as int] == a);
            assert(spoken_for[known.len() as int + 1] == b);
            if spoken_for.contains(key) {
                let i = choose|i: int| 0 <= i < spoken_for.len() && spoken_for[i] == key;
                if i < known.len() {
                    assert(known[i] == key);
                    assert(known.contains(key));
                    let k = choose|k: int|
                        0 <= k < before.len() && #[trigger] speaks_for(events, before[k], key);
                    assert(speaks_for(events, out[k], key));
                } else {
                    assert(speaks_for(events, out[before.len() as int], key));
                }
            }
            if is_spoken_for(events, out, out.len() as int, key) {
                let k = choose|k: int|
                    0 <= k < out.len() && #[trigger] speaks_for(events, out[k], key);
                if k < before.len() {
                    assert(speaks_for(events, before[k], key));
                    assert(known.contains(key));
                    let i = choose|i: int| 0 <= i < known.len() && known[i] == key;
                    assert(spoken_for[i] == key);
                }
            }
        }
    }
}

proof fn lemma_offers_grow(
    events: Seq<SuggestibleEvent>,
    groups: Seq<EventGroup>,
    declines: Seq<SuggestionDecline>,
    m: int,
    n: int,
)
    requires
        0 <= m <= n,
    ensures
        offers(events, groups, declines, m).0.is_prefix_of(offers(events, groups, declines, n).0),
    decreases n,
{
    if m < n {
        lemma_offers_grow(events, groups, declines, m, n - 1);
    }
}

/// No fair pair is left: of two rows that could be offered as a pair, an offer
/// speaks for one at least.
pub proof fn no_fair_pair_is_left(
    events: Seq<SuggestibleEvent>,
    groups: Seq<EventGroup>,
    declines: Seq<SuggestionDecline>,
    i: int,
    j: int,
)
    requires
        events.len() <= usize::MAX,
        is_fair(events, groups, declines, i, j),
    ensures
        ({
            let out = offers(events, groups, declines, events.len() as int).0;
            is_spoken_for(events, out, out.len() as int, events[i].key()) || is_spoken_for(
                events,
                out,
                out.len() as int,
                events[j].key(),
            )
        }),
{
    let n = events.len() as int;
    let (out, all) = offers(events, groups, declines, n);
    let (before, known) = offers(events, groups, declines, i);
    let (after, now) = offers(events, groups, declines, i + 1);
    lemma_offers_grow(events, groups, declines, i, i + 1);
    lemma_offers_grow(events, groups, declines, i + 1, n);
    lemma_spoken(events, groups, declines, i, events[i].key());
    lemma_spoken(events, groups, declines, i, events[j].key());
    if known.contains(events[i].key()) {
        let k = choose|k: int|
            0 <= k < before.len() && #[trigger] speaks_for(events, before[k], events[i].key());
        assert(out[k] == before[k]);
        assert(speaks_for(events, out[k], events[i].key()));
    } else if known.contains(events[j].key()) {
        let k = choose|k: int|
            0 <= k < before.len() && #[trigger] speaks_for(events, before[k], events[j].key());
        assert(out[k] == before[k]);
        assert(speaks_for(events, out[k], events[j].key()));
    } else {
        lemma_nearest_mate(events, groups, declines, known, i, i + 1, j);
        let k = before.len() as int;
        assert(after[k].first == i);
        assert(out[k] == after[k]);
        assert(speaks_for(events, out[k], events[i].key()));
    }
}

/// An offer takes the nearest: every row between its two that the first could be
/// offered with is one that an earlier offer speaks for.
pub proof fn an_offer_takes_the_nearest(
    events: Seq<SuggestibleEvent>,
    groups: Seq<EventGroup>,
    declines: Seq<SuggestionDecline>,
    n: int,
    k: int,
    m: int,
)
    requires
        0 <= n <= events.len() <= usize::MAX,
        0 <= k < offers(events, groups, declines, n).0.len(),
        m < offers(events, groups, declines, n).0[k].second,
        is_fair(
            events,
            groups,
            declines,
            offers(events, groups, declines, n).0[k].first as int,
            m,
        ),
    ensures
        is_spoken_for(events, offers(events, groups, declines, n).0, k, events[m].key()),
    decreases n,
{
    let out = offers(events, groups, declines, n).0;
    let (before, known) = offers(events, groups, declines, n - 1);
    lemma_spoken(events, groups, declines, n - 1, events[m].key());
    if k < before.len() {
        assert(before[k] == out[k]);
        an_offer_takes_the_nearest(events, groups, declines, n - 1, k, m);
        let e = choose|e: int|
            0 <= e < k && #[trigger] speaks_for(events, before[e], events[m].key());
        assert(speaks_for(events, out[e], events[m].key()));
    } else {
        lemma_offered_mate(events, groups, declines, known, n - 1, n);
        if !known.contains(events[m].key()) {
            lemma_nearest_mate(events, groups, declines, known, n - 1, n, m);
        }
        let e = choose|e: int|
            0 <= e < before.len() && #[trigger] speaks_for(events, before[e], events[m].key());
        assert(speaks_for(events, out[e], events[m].key()));
    }
}

} // verus!
