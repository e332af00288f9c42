//! How a row that names a foreign event finds it again.
//!
//! Several things are kept ABOUT events that live on a provider: which events
//! mean one appointment, the reminders kept private, the colour a calendar
//! cannot store, and which meeting was minted for an event. Each names its
//! event by the provider's id, and those ids change underneath us. A row that
//! stored the id alone would then point at nothing, in silence. So each stores
//! a SIGNATURE beside it, the title and start the appointment had, and the
//! calendar it lives in, and is repaired where the events that prove it are
//! already in hand.
//!
//! The tables differ; the DECISION does not, and it is the subtle part. This
//! module holds it once: what to refresh, what to repoint, and, mostly, what
//! to leave alone. Each caller applies the answer to its own table.

use vstd::prelude::*;

use crate::civil::{
    is_plain, parse_instant, read_instant, rfc3339_text, write_rfc3339, Instant, Moment,
};
use crate::event_group::{normalized_title, title_key};
use crate::text::{
    chars_of, find_in, find_text, holds_text, lemma_find_in, same, stands_at, string_of,
};
use crate::types::Event;

verus! {

/// The id of the series an event belongs to: what stands before the marker.
pub open spec fn master_of(event_id: Seq<char>) -> Seq<char> {
    match find_in(event_id, "::rid::"@) {
        Some(at) => event_id.take(at),
        None => event_id,
    }
}

/// The id of the SERIES this event belongs to.
///
/// A provider-sent override for one modified occurrence carries the master's
/// id in front of the marker; everything keyed per event is keyed by the
/// master, because a recurring appointment is one appointment. An occurrence
/// that a surface expanded by itself carries no marker, and its id comes back
/// as it is.
pub fn series_master_id(event_id: &str) -> (r: String)
    ensures
        r@ == master_of(event_id@),
{
    let chars = chars_of(event_id);
    let marker = chars_of("::rid::");
    match find_text(chars.as_slice(), marker.as_slice()) {
        Some(at) => {
            let front = string_of(&chars[0..at]);
            assert(front@ =~= event_id@.take(at as int));
            front
        },
        None => event_id.to_owned(),
    }
}

/// One stored row, reduced to what deciding needs.
#[derive(Debug, Clone, PartialEq, Eq)]
pub struct Anchored {
    /// The event id the row is stored under: its key, whatever the table
    /// calls it.
    pub event_id: String,
    /// The calendar the row believes its event lives in. Empty means the row
    /// predates its table's signature and has never been seen since.
    pub calendar_id: String,
    /// The title the appointment had. Half of the signature.
    pub title: String,
    /// The start it had, RFC 3339. The other half.
    pub starts_at: String,
}

/// What an [`Anchored`] row holds.
pub struct AnchoredText {
    pub event_id: Seq<char>,
    pub calendar_id: Seq<char>,
    pub title: Seq<char>,
    pub starts_at: Seq<char>,
}

impl View for Anchored {
    type V = AnchoredText;

    open spec fn view(&self) -> AnchoredText {
        AnchoredText {
            event_id: self.event_id@,
            calendar_id: self.calendar_id@,
            title: self.title@,
            starts_at: self.starts_at@,
        }
    }
}

/// What to do about one row.
#[derive(Debug, Clone, PartialEq, Eq)]
pub enum Repair {
    /// The row's event is here. Write down what it looks like NOW, so a later
    /// rename or move cannot make it unfindable.
    Refresh { event_id: String, calendar_id: String, title: String, starts_at: String },
    /// The row's id answers to nothing, and exactly one appointment matches
    /// what it remembers. Point it there.
    Repoint { event_id: String, to: String },
}

/// What a [`Repair`] says.
pub enum RepairText {
    Refresh {
        event_id: Seq<char>,
        calendar_id: Seq<char>,
        title: Seq<char>,
        starts_at: Seq<char>,
    },
    Repoint { event_id: Seq<char>, to: Seq<char> },
}

impl View for Repair {
    type V = RepairText;

    open spec fn view(&self) -> RepairText {
        match *self {
            Repair::Refresh { event_id, calendar_id, title, starts_at } => RepairText::Refresh {
                event_id: event_id@,
                calendar_id: calendar_id@,
                title: title@,
                starts_at: starts_at@,
            },
            Repair::Repoint { event_id, to } => RepairText::Repoint {
                event_id: event_id@,
                to: to@,
            },
        }
    }
}

/// What a list of repairs says.
pub open spec fn repair_texts(list: Seq<Repair>) -> Seq<RepairText> {
    Seq::new(list.len(), |i: int| list[i]@)
}

/// The event among the first `n` that answers to an id: the last one with that
/// very id, else the first of the series.
pub open spec fn present_at(events: Seq<Event>, id: Seq<char>, n: int) -> Option<int>
    decreases n,
{
    if n <= 0 {
        None
    } else {
        let before = present_at(events, id, n - 1);
        if events[n - 1].id@ == id {
            Some(n - 1)
        } else if before is None && master_of(events[n - 1].id@) == id {
            Some(n - 1)
        } else {
            before
        }
    }
}

/// The earliest of a moment and the starts of the first `n` events.
pub open spec fn earliest(events: Seq<Event>, from: Moment, n: int) -> Moment
    decreases n,
{
    if n <= 0 {
        from
    } else {
        let before = earliest(events, from, n - 1);
        if events[n - 1].start@.before(before) {
            events[n - 1].start@
        } else {
            before
        }
    }
}

/// The latest of a moment and the starts of the first `n` events.
pub open spec fn latest(events: Seq<Event>, to: Moment, n: int) -> Moment
    decreases n,
{
    if n <= 0 {
        to
    } else {
        let before = latest(events, to, n - 1);
        if before.before(events[n - 1].start@) {
            events[n - 1].start@
        } else {
            before
        }
    }
}

/// Whether an event starts when a stored signature says its appointment did:
/// an all-day one on the same UTC day, a timed one at the same instant.
pub open spec fn starts_then(event: Event, wanted: Moment) -> bool {
    if event.all_day {
        event.start@.day_number() == wanted.day_number()
    } else {
        event.start@ == wanted
    }
}

/// The series of the first `n` events that bear this name at this time.
pub open spec fn candidates(
    events: Seq<Event>,
    name: Seq<char>,
    wanted: Moment,
    n: int,
) -> Seq<Seq<char>>
    decreases n,
{
    if n <= 0 {
        Seq::empty()
    } else {
        let before = candidates(events, name, wanted, n - 1);
        if title_key(events[n - 1].title@) == name && starts_then(events[n - 1], wanted) {
            before.push(master_of(events[n - 1].id@))
        } else {
            before
        }
    }
}

/// The one id all of these are, where they are one.
pub open spec fn the_only(ids: Seq<Seq<char>>) -> Option<Seq<char>> {
    if ids.len() > 0 && forall|i: int| 0 <= i < ids.len() ==> #[trigger] ids[i] == ids[0] {
        Some(ids[0])
    } else {
        None
    }
}

/// What to repair about one row, if anything.
pub open spec fn repair_of(
    row: AnchoredText,
    calendar_id: Seq<char>,
    events: Seq<Event>,
    lower: Moment,
    upper: Moment,
) -> Option<RepairText> {
    match present_at(events, row.event_id, events.len() as int) {
        Some(k) => if events[k].title@ != row.title || read_instant(row.starts_at) != Some(
            events[k].start@,
        ) || row.calendar_id != calendar_id {
            Some(
                RepairText::Refresh {
                    event_id: row.event_id,
                    calendar_id,
                    title: events[k].title@,
                    starts_at: rfc3339_text(events[k].start@),
                },
            )
        } else {
            None
        },
        None => {
            let name = title_key(row.title);
            match read_instant(row.starts_at) {
                Some(wanted) => if row.calendar_id == calendar_id && name.len() > 0
                    && !wanted.before(lower) && !upper.before(wanted) {
                    match the_only(candidates(events, name, wanted, events.len() as int)) {
                        Some(to) => Some(RepairText::Repoint { event_id: row.event_id, to }),
                        None => None,
                    }
                } else {
                    None
                },
                None => None,
            }
        },
    }
}

/// Every repair of a list of rows, in order.
pub open spec fn repairs_of(
    rows: Seq<Anchored>,
    calendar_id: Seq<char>,
    events: Seq<Event>,
    lower: Moment,
    upper: Moment,
) -> Seq<RepairText>
    decreases rows.len(),
{
    if rows.len() == 0 {
        Seq::empty()
    } else {
        let before = repairs_of(rows.drop_last(), calendar_id, events, lower, upper);
        match repair_of(rows.last()@, calendar_id, events, lower, upper) {
            Some(repair) => before.push(repair),
            None => before,
        }
    }
}

/// What a refresh writes down is the start of one of the events, and where that
/// lies in the four-digit years, it is read back as that start.
pub open spec fn reads_back(repair: Repair, events: Seq<Event>) -> bool {
    repair matches Repair::Refresh { starts_at, .. } ==> exists|k: int|
        0 <= k < events.len() && starts_at@ == rfc3339_text((#[trigger] events[k]).start@) && (
        is_plain(events[k].start@) ==> read_instant(starts_at@) == Some(events[k].start@))
}

fn find_present(events: &[Event], id: &str) -> (r: Option<usize>)
    ensures
        match r {
            Some(k) => present_at(events@, id@, events@.len() as int) == Some(k as int) && k
                < events@.len(),
            None => present_at(events@, id@, events@.len() as int) is None,
        },
{
    let mut found: Option<usize> = None;
    let mut i: usize = 0;
    while i < events.len()
        invariant
            i <= events.len(),
            match found {
                Some(k) => present_at(events@, id@, i as int) == Some(k as int) && k < i,
                None => present_at(events@, id@, i as int) is None,
            },
        decreases events.len() - i,
    {
        if same(events[i].id.as_str(), id) {
            found = Some(i);
        } else if found.is_none() {
            let master = series_master_id(events[i].id.as_str());
            if same(master.as_str(), id) {
                found = Some(i);
            }
        }
        i = i + 1;
    }
    found
}

/// Whether this event starts when a stored signature says its appointment did.
///
/// An all-day event agrees on the DAY, a timed one on the instant: an all-day
/// start is local midnight expressed as a UTC instant, so the same birthday is
/// a different instant either side of a clock change. The candidate's flag
/// decides for both sides, because a signature cannot say whether the
/// appointment it describes was all-day; and the day is the UTC day, which is
/// used as a key and not as a date.
fn starts_the_same(event: &Event, wanted: &Instant) -> (r: bool)
    ensures
        r == starts_then(*event, wanted@),
{
    if event.all_day {
        event.start.day_number() == wanted.day_number()
    } else {
        event.start.same_instant(wanted)
    }
}

fn find_only(events: &[Event], name: &str, wanted: &Instant) -> (r: Option<String>)
    ensures
        match r {
            Some(to) => the_only(candidates(events@, name@, wanted@, events@.len() as int)) == Some(
                to@,
            ),
            None => the_only(candidates(events@, name@, wanted@, events@.len() as int)) is None,
        },
{
    let mut found: Option<String> = None;
    let mut many = false;
    let mut i: usize = 0;
    while i < events.len()
        invariant
            i <= events.len(),
            ({
                let ids = candidates(events@, name@, wanted@, i as int);
                &&& found is None <==> ids.len() == 0
                &&& found matches Some(to) ==> to@ == ids[0]
                &&& many ==> exists|k: int| 0 <= k < ids.len() && #[trigger] ids[k] != ids[0]
                &&& !many ==> forall|k: int| 0 <= k < ids.len() ==> #[trigger] ids[k] == ids[0]
            }),
        decreases events.len() - i,
    {
        let ghost before = candidates(events@, name@, wanted@, i as int);
        let title = normalized_title(events[i].title.as_str());
        if same(title.as_str(), name) && starts_the_same(&events[i], wanted) {
            let master = series_master_id(events[i].id.as_str());
            let ghost after = candidates(events@, name@, wanted@, i as int + 1);
            assert(after == before.push(master@));
            assert(after[before.len() as int] == master@);
            match &found {
                Some(to) => {
                    assert(after[0] == before[0]);
                    if !same(to.as_str(), master.as_str()) {
                        many = true;
                    }
                    proof {
                        if exists|k: int|
                            0 <= k < before.len() && #[trigger] before[k] != before[0] {
                            let k = choose|k: int|
                                0 <= k < before.len() && #[trigger] before[k] != before[0];
                            assert(after[k] == before[k]);
                        }
                        assert forall|k: int|
                            0 <= k < after.len() && !many implies #[trigger] after[k]
                            == after[0] by {
                            if k < before.len() {
                                assert(after[k] == before[k]);
                            }
                        }
                    }
                },
                None => {
                    found = Some(master);
                },
            }
        }
        i = i + 1;
    }
    if many {
        None
    } else {
        found
    }
}

fn find_repair(
    row: &Anchored,
    calendar_id: &str,
    events: &[Event],
    lower: &Instant,
    upper: &Instant,
) -> (r: Option<Repair>)
    ensures
        match r {
            Some(repair) => repair_of(row@, calendar_id@, events@, lower@, upper@) == Some(repair@),
            None => repair_of(row@, calendar_id@, events@, lower@, upper@) is None,
        },
        r matches Some(repair) ==> reads_back(repair, events@),
{
    let stored = parse_instant(row.starts_at.as_str());
    let here = same(row.calendar_id.as_str(), calendar_id);
    if let Some(k) = find_present(events, row.event_id.as_str()) {
        // Compared as an INSTANT, never as text: one moment has several
        // spellings, and a signature is written by whichever side last touched
        // the row. A signature that will not parse is not a signature: writing
        // a readable one over it is the repair.
        let start_matches = match &stored {
            Some(at) => at.same_instant(&events[k].start),
            None => false,
        };
        if same(events[k].title.as_str(), row.title.as_str()) && start_matches && here {
            return None;
        }
        let starts_at = write_rfc3339(events[k].start);
        assert(starts_at@ == rfc3339_text(events@[k as int].start@));
        return Some(
            Repair::Refresh {
                event_id: row.event_id.clone(),
                calendar_id: calendar_id.to_owned(),
                title: events[k].title.clone(),
                starts_at,
            },
        );
    }
    // Another calendar's row is not missing: it was never in this batch.
    if !here {
        return None;
    }
    let name = normalized_title(row.title.as_str());
    if name.as_str().is_empty() {
        return None;
    }
    let wanted = match stored {
        Some(at) => at,
        None => {
            return None;
        },
    };
    if wanted.before(lower) || upper.before(&wanted) {
        return None;
    }
    match find_only(events, name.as_str(), &wanted) {
        Some(to) => Some(Repair::Repoint { event_id: row.event_id.clone(), to }),
        None => None,
    }
}

/// Decide what to repair for one calendar's rows, given the events just
/// fetched for `range`.
///
/// Nothing is decided lightly, because every repair is silent. A repair is
/// only proposed when it cannot be anything else:
///
///   * **Only this calendar's rows may be called vanished.** The same
///     appointment routinely exists in several calendars.
///   * **Ambiguity repairs nothing.** Two appointments of the same name at the
///     same time leave the row where it is.
///   * **A row is only judged against a batch that could contain it.** The
///     window is `range` widened by the events actually in hand. Outside it,
///     "not here" means nothing.
///
/// A row counts as present under EITHER id its event answers to: the series
/// master, and the row's own id.
pub fn plan_repairs(
    rows: &[Anchored],
    calendar_id: &str,
    events: &[Event],
    range: (Instant, Instant),
) -> (r: Vec<Repair>)
    ensures
        repair_texts(r@) == repairs_of(
            rows@,
            calendar_id@,
            events@,
            earliest(events@, range.0@, events@.len() as int),
            latest(events@, range.1@, events@.len() as int),
        ),
        forall|i: int| 0 <= i < r@.len() ==> reads_back(#[trigger] r@[i], events@),
{
    // What this batch can speak for.
    let mut lower = range.0;
    let mut upper = range.1;
    let mut i: usize = 0;
    while i < events.len()
        invariant
            i <= events.len(),
            lower@ == earliest(events@, range.0@, i as int),
            upper@ == latest(events@, range.1@, i as int),
        decreases events.len() - i,
    {
        if events[i].start.before(&lower) {
            lower = events[i].start;
        }
        if upper.before(&events[i].start) {
            upper = events[i].start;
        }
        i = i + 1;
    }
    let mut out: Vec<Repair> = Vec::new();
    let mut k: usize = 0;
    assert(repair_texts(out@) =~= Seq::empty());
    while k < rows.len()
        invariant
            k <= rows.len(),
            forall|i: int| 0 <= i < out@.len() ==> reads_back(#[trigger] out@[i], events@),
            repair_texts(out@) == repairs_of(
                rows@.take(k as int),
                calendar_id@,
                events@,
                lower@,
                upper@,
            ),
        decreases rows.len() - k,
    {
        assert(rows@.take(k as int + 1).drop_last() =~= rows@.take(k as int));
        if let Some(repair) = find_repair(&rows[k], calendar_id, events, &lower, &upper) {
            let ghost before = repair_texts(out@);
            out.push(repair);
            assert(repair_texts(out@) =~= before.push(repair@));
        }
        k = k + 1;
    }
    assert(rows@.take(k as int) =~= rows@);
    out
}

// ---------------------------------------------------------------------------
// Laws
// ---------------------------------------------------------------------------

/// A row after a repair.
pub open spec fn repaired(row: AnchoredText, repair: RepairText) -> AnchoredText {
    match repair {
        RepairText::Refresh { event_id, calendar_id, title, starts_at } => AnchoredText {
            event_id,
            calendar_id,
            title,
            starts_at,
        },
        RepairText::Repoint { event_id, to } => AnchoredText { event_id: to, ..row },
    }
}

/// A refreshed row rests: once its text is read back as the moment it was
/// written for, the same batch proposes nothing more for it.
pub proof fn a_refreshed_row_rests(
    row: AnchoredText,
    calendar_id: Seq<char>,
    events: Seq<Event>,
    lower: Moment,
    upper: Moment,
)
    requires
        present_at(events, row.event_id, events.len() as int) is Some,
        ({
            let start = events[present_at(
                events,
                row.event_id,
                events.len() as int,
            ).unwrap()].start@;
            read_instant(rfc3339_text(start)) == Some(start)
        }),
        repair_of(row, calendar_id, events, lower, upper) is Some,
    ensures
        repair_of(
            repaired(row, repair_of(row, calendar_id, events, lower, upper).unwrap()),
            calendar_id,
            events,
            lower,
            upper,
        ) is None,
{
}

/// Another calendar's row is never called vanished: without its event in the
/// batch, nothing is proposed for it.
pub proof fn another_calendars_row_is_left_alone(
    row: AnchoredText,
    calendar_id: Seq<char>,
    events: Seq<Event>,
    lower: Moment,
    upper: Moment,
)
    requires
        present_at(events, row.event_id, events.len() as int) is None,
        row.calendar_id != calendar_id,
    ensures
        repair_of(row, calendar_id, events, lower, upper) is None,
{
}

proof fn lemma_candidate(events: Seq<Event>, name: Seq<char>, wanted: Moment, n: int, k: int)
    requires
        0 <= k < n <= events.len(),
        title_key(events[k].title@) == name,
        starts_then(events[k], wanted),
    ensures
        candidates(events, name, wanted, n).contains(master_of(events[k].id@)),
    decreases n,
{
    let before = candidates(events, name, wanted, n - 1);
    let after = candidates(events, name, wanted, n);
    if k == n - 1 {
        assert(after[before.len() as int] == master_of(events[k].id@));
    } else {
        lemma_candidate(events, name, wanted, n - 1, k);
        let i = choose|i: int| 0 <= i < before.len() && before[i] == master_of(events[k].id@);
        assert(after[i] == before[i]);
    }
}

/// Ambiguity repairs nothing: with two appointments of different series that
/// bear the row's name at its time, a row whose event is not in the batch is
/// left where it is.
pub proof fn ambiguity_repairs_nothing(
    row: AnchoredText,
    calendar_id: Seq<char>,
    events: Seq<Event>,
    lower: Moment,
    upper: Moment,
    a: int,
    b: int,
)
    requires
        present_at(events, row.event_id, events.len() as int) is None,
        read_instant(row.starts_at) is Some,
        0 <= a < events.len(),
        0 <= b < events.len(),
        master_of(events[a].id@) != master_of(events[b].id@),
        title_key(events[a].title@) == title_key(row.title),
        title_key(events[b].title@) == title_key(row.title),
        starts_then(events[a], read_instant(row.starts_at).unwrap()),
        starts_then(events[b], read_instant(row.starts_at).unwrap()),
    ensures
        repair_of(row, calendar_id, events, lower, upper) is None,
{
    let name = title_key(row.title);
    let wanted = read_instant(row.starts_at).unwrap();
    let n = events.len() as int;
    lemma_candidate(events, name, wanted, n, a);
    lemma_candidate(events, name, wanted, n, b);
    let ids = candidates(events, name, wanted, n);
    let i = choose|i: int| 0 <= i < ids.len() && ids[i] == master_of(events[a].id@);
    let j = choose|j: int| 0 <= j < ids.len() && ids[j] == master_of(events[b].id@);
    assert(ids[i] != ids[j]);
}

// ---------------------------------------------------------------------------
// What a repair rests on
// ---------------------------------------------------------------------------

/// An event answers to an id: it bears it, or its series does.
pub open spec fn answers_to(event: Event, id: Seq<char>) -> bool {
    event.id@ == id || master_of(event.id@) == id
}

/// The series of an id stands before the first marker in it; an id without one
/// is its own.
pub proof fn a_series_stands_before_the_marker(id: Seq<char>)
    ensures
        !holds_text(id, "::rid::"@) ==> master_of(id) == id,
        holds_text(id, "::rid::"@) ==> exists|at: int|
            #[trigger] stands_at(id, "::rid::"@, at) && master_of(id) == id.take(at) && forall|
                j: int,
            |
                0 <= j < at ==> !#[trigger] stands_at(id, "::rid::"@, j),
{
    lemma_find_in(id, "::rid::"@);
}

/// The event a row is about: the last that bears its id, or, where none does, the
/// first whose series does. There is none exactly where no event answers to it.
pub proof fn a_row_is_found_by_its_id_or_its_series(events: Seq<Event>, id: Seq<char>, n: int)
    requires
        0 <= n <= events.len(),
    ensures
        match present_at(events, id, n) {
            Some(k) => {
                &&& 0 <= k < n
                &&& answers_to(events[k], id)
                &&& events[k].id@ == id ==> forall|j: int|
                    k < j < n ==> (#[trigger] events[j]).id@ != id
                &&& events[k].id@ != id ==> forall|j: int|
                    0 <= j < n ==> (#[trigger] events[j]).id@ != id && (j < k ==> !answers_to(
                        events[j],
                        id,
                    ))
            },
            None => forall|j: int| 0 <= j < n ==> !answers_to(#[trigger] events[j], id),
        },
    decreases n,
{
    if n > 0 {
        a_row_is_found_by_its_id_or_its_series(events, id, n - 1);
    }
}

/// The window a batch can speak for: from the earlier of the range's start and
/// the earliest event's, to the later of the range's end and the latest event's.
pub proof fn the_window_holds_the_range_and_every_event(
    events: Seq<Event>,
    from: Moment,
    to: Moment,
    n: int,
)
    requires
        0 <= n <= events.len(),
    ensures
        !from.before(earliest(events, from, n)),
        !latest(events, to, n).before(to),
        forall|i: int|
            0 <= i < n ==> !(#[trigger] events[i]).start@.before(earliest(events, from, n))
                && !latest(events, to, n).before(events[i].start@),
        earliest(events, from, n) == from || exists|i: int|
            0 <= i < n && (#[trigger] events[i]).start@ == earliest(events, from, n),
        latest(events, to, n) == to || exists|i: int|
            0 <= i < n && (#[trigger] events[i]).start@ == latest(events, to, n),
    decreases n,
{
    if n > 0 {
        the_window_holds_the_range_and_every_event(events, from, to, n - 1);
    }
}

/// An event is what a row remembers: it bears the same name, and starts on the
/// same day where it is all-day, at the same instant where it is timed.
pub open spec fn is_remembered(event: Event, row: AnchoredText) -> bool {
    &&& title_key(event.title@) == title_key(row.title)
    &&& title_key(row.title).len() > 0
    &&& read_instant(row.starts_at) is Some
    &&& if event.all_day {
        event.start@.day_number() == read_instant(row.starts_at)->0.day_number()
    } else {
        event.start@ == read_instant(row.starts_at)->0
    }
}

proof fn lemma_candidate_of(
    events: Seq<Event>,
    name: Seq<char>,
    wanted: Moment,
    n: int,
    id: Seq<char>,
)
    requires
        0 <= n <= events.len(),
    ensures
        candidates(events, name, wanted, n).contains(id) <==> exists|k: int|
            0 <= k < n && title_key((#[trigger] events[k]).title@) == name && starts_then(
                events[k],
                wanted,
            ) && master_of(events[k].id@) == id,
    decreases n,
{
    if n > 0 {
        let before = candidates(events, name, wanted, n - 1);
        let all = candidates(events, name, wanted, n);
        lemma_candidate_of(events, name, wanted, n - 1, id);
        if before.contains(id) {
            let i = choose|i: int| 0 <= i < before.len() && before[i] == id;
            assert(all[i] == id);
        }
        if all.contains(id) && !before.contains(id) {
            let i = choose|i: int| 0 <= i < all.len() && all[i] == id;
            if i < before.len() {
                assert(before[i] == id);
            }
        }
        if all.len() > before.len() {
            assert(all[before.len() as int] == master_of(events[n - 1].id@));
        }
    }
}

/// A row whose event is in the batch is refreshed exactly where it does not say
/// what the event says, and then to what that says. A row whose event is not is
/// pointed elsewhere exactly where it is of this calendar, its time lies in the
/// window, and the events it may remember are there and of one series, and then
/// to that series.
pub proof fn a_repair_is_what_the_batch_shows(
    row: AnchoredText,
    calendar_id: Seq<char>,
    events: Seq<Event>,
    lower: Moment,
    upper: Moment,
)
    ensures
        ({
            let found = present_at(events, row.event_id, events.len() as int);
            let repair = repair_of(row, calendar_id, events, lower, upper);
            let at = read_instant(row.starts_at);
            &&& found is Some ==> (repair is None <==> row.title == events[found->0].title@ && at
                == Some(events[found->0].start@) && row.calendar_id == calendar_id)
            &&& found is Some && repair is Some ==> repair->0 == (RepairText::Refresh {
                event_id: row.event_id,
                calendar_id,
                title: events[found->0].title@,
                starts_at: rfc3339_text(events[found->0].start@),
            })
            &&& found is None ==> (repair is Some <==> row.calendar_id == calendar_id && at is Some
                && !at->0.before(lower) && !upper.before(at->0) && (exists|k: int|
                0 <= k < events.len() && is_remembered(#[trigger] events[k], row)) && forall|
                j: int,
                k: int,
            |
                0 <= j < events.len() && 0 <= k < events.len() && is_remembered(
                    #[trigger] events[j],
                    row,
                ) && is_remembered(#[trigger] events[k], row) ==> master_of(events[j].id@)
                    == master_of(events[k].id@))
            &&& found is None && repair is Some ==> forall|k: int|
                0 <= k < events.len() && is_remembered(#[trigger] events[k], row) ==> repair->0 == (
                RepairText::Repoint { event_id: row.event_id, to: master_of(events[k].id@) })
        }),
{
    let n = events.len() as int;
    let name = title_key(row.title);
    if read_instant(row.starts_at) is Some && name.len() > 0 {
        let wanted = read_instant(row.starts_at)->0;
        let ids = candidates(events, name, wanted, n);
        assert forall|k: int| 0 <= k < n && is_remembered(#[trigger] events[k], row) implies
            ids.contains(master_of(events[k].id@)) by {
            lemma_candidate_of(events, name, wanted, n, master_of(events[k].id@));
        }
        assert forall|i: int| 0 <= i < ids.len() implies exists|k: int|
            0 <= k < n && is_remembered(#[trigger] events[k], row) && master_of(events[k].id@)
                == #[trigger] ids[i] by {
            assert(ids.contains(ids[i]));
            lemma_candidate_of(events, name, wanted, n, ids[i]);
            let k = choose|k: int|
                0 <= k < n && title_key((#[trigger] events[k]).title@) == name && starts_then(
                    events[k],
                    wanted,
                ) && master_of(events[k].id@) == ids[i];
            assert(is_remembered(events[k], row));
        }
        if the_only(ids) is Some {
            assert forall|k: int| 0 <= k < n && is_remembered(#[trigger] events[k], row) implies
                master_of(events[k].id@) == ids[0] by {
                let i = choose|i: int| 0 <= i < ids.len() && ids[i] == master_of(events[k].id@);
                assert(ids[i] == ids[0]);
            }
        } else if ids.len() > 0 {
            let i = choose|i: int| 0 <= i < ids.len() && #[trigger] ids[i] != ids[0];
            let j = choose|k: int|
                0 <= k < n && is_remembered(#[trigger] events[k], row) && master_of(events[k].id@)
                    == ids[0];
            let k = choose|k: int|
                0 <= k < n && is_remembered(#[trigger] events[k], row) && master_of(events[k].id@)
                    == ids[i];
            assert(is_remembered(events[j], row) && is_remembered(events[k], row));
        } else {
            assert forall|k: int| 0 <= k < n implies !is_remembered(#[trigger] events[k], row) by {
                if is_remembered(events[k], row) {
                    assert(ids.contains(master_of(events[k].id@)));
                }
            }
        }
    }
}

/// Every row gets its repair, in the order of the rows, and nothing else is
/// repaired.
pub proof fn every_row_gets_its_repair(
    rows: Seq<Anchored>,
    calendar_id: Seq<char>,
    events: Seq<Event>,
    lower: Moment,
    upper: Moment,
    repair: RepairText,
)
    ensures
        repairs_of(rows, calendar_id, events, lower, upper).contains(repair) <==> exists|i: int|
            0 <= i < rows.len() && repair_of(
                (#[trigger] rows[i])@,
                calendar_id,
                events,
                lower,
                upper,
            ) == Some(repair),
    decreases rows.len(),
{
    if rows.len() > 0 {
        let front = rows.drop_last();
        let before = repairs_of(front, calendar_id, events, lower, upper);
        let all = repairs_of(rows, calendar_id, events, lower, upper);
        every_row_gets_its_repair(front, calendar_id, events, lower, upper, repair);
        assert(rows[rows.len() - 1] == rows.last());
        if before.contains(repair) {
            let k = choose|k: int| 0 <= k < before.len() && before[k] == repair;
            assert(all[k] == repair);
            let i = choose|i: int|
                0 <= i < front.len() && repair_of(
                    (#[trigger] front[i])@,
                    calendar_id,
                    events,
                    lower,
                    upper,
                ) == Some(repair);
            assert(rows[i] == front[i]);
        }
        if all.contains(repair) && !before.contains(repair) {
            let k = choose|k: int| 0 <= k < all.len() && all[k] == repair;
            if k < before.len() {
                assert(before[k] == repair);
            }
        }
        if exists|i: int|
            0 <= i < rows.len() && repair_of(
                (#[trigger] rows[i])@,
                calendar_id,
                events,
                lower,
                upper,
            ) == Some(repair) {
            let i = choose|i: int|
                0 <= i < rows.len() && repair_of(
                    (#[trigger] rows[i])@,
                    calendar_id,
                    events,
                    lower,
                    upper,
                ) == Some(repair);
            if i < front.len() {
                assert(front[i] == rows[i]);
            } else {
                assert(all[before.len() as int] == repair);
            }
        }
    }
}

} // verus!
