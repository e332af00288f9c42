//! Folding a group into one row.
//!
//! A group says several events mean the same appointment. Here that changes
//! what a day looks like: four rows that are one commitment become one row that
//! names the calendars it spans.
//!
//! Call it with ONE DAY's rows. A recurring appointment renders one row per
//! day, so a longer range would read as "the copies have drifted apart".

use vstd::prelude::*;

use crate::civil::{parse_instant, read_instant};
use crate::event_group::{
    find_group, group_of, lemma_group_of, EventGroup, EventGroupMember, EventKey,
};
use crate::group_suggestion::{day_part, holds_meetings, is_meeting_calendar, take_day};
use crate::text::{
    contains_text, ends_with, lemma_texts_push, optional_text, same, texts,
};

verus! {

/// The minimum a row has to carry to be foldable.
#[derive(Debug, Clone, PartialEq, Eq)]
pub struct FoldableEvent {
    pub calendar_id: String,
    /// The id membership is keyed by: the series master.
    pub series_id: String,
    pub start: Option<String>,
    pub all_day: bool,
    /// Whether the user can ACT on this row. Absent means the rule decides: the
    /// only rows that cannot be acted on are the read-only meeting copies.
    pub actionable: Option<bool>,
}

/// One rendered row after folding.
#[derive(Debug, Clone, PartialEq, Eq)]
pub struct CollapsedRow {
    /// The row to draw, as a POSITION in the input. For a group, the member
    /// that was chosen to stand for it.
    pub event: usize,
    /// The id of the group this row stands for, when it stands for one.
    pub group_id: Option<String>,
    /// How many OTHER events the group holds, from the group itself and not
    /// from what happened to be on screen.
    pub other_members: usize,
    /// The calendars the group spans, this row's own first.
    pub calendar_ids: Vec<String>,
    /// The members in view disagree about when the appointment is. Then they
    /// are NOT folded away: the disagreement is the thing to act on.
    pub diverged: bool,
}

/// Everything [`collapse_event_groups`] needs.
#[derive(Debug, Clone, PartialEq, Eq)]
pub struct FoldInput {
    pub events: Vec<FoldableEvent>,
    pub groups: Vec<EventGroup>,
}

/// What a [`CollapsedRow`] holds.
pub struct CollapsedText {
    pub event: int,
    pub group_id: Option<Seq<char>>,
    pub other_members: int,
    pub calendar_ids: Seq<Seq<char>>,
    pub diverged: bool,
}

impl View for CollapsedRow {
    type V = CollapsedText;

    open spec fn view(&self) -> CollapsedText {
        CollapsedText {
            event: self.event as int,
            group_id: optional_text(self.group_id),
            other_members: self.other_members as int,
            calendar_ids: texts(self.calendar_ids@),
            diverged: self.diverged,
        }
    }
}

/// What a list of rows holds.
pub open spec fn collapsed_texts(v: Seq<CollapsedRow>) -> Seq<CollapsedText> {
    Seq::new(v.len(), |i: int| v[i]@)
}

/// When a row is, as far as it can be told.
pub enum StartText {
    /// The day of an all-day row, as it was written.
    Day(Seq<char>),
    /// Milliseconds since January 1, 1970.
    At(int),
    /// A start that cannot be read, as it was written.
    Unread(Seq<char>),
}

impl FoldableEvent {
    pub open spec fn key(self) -> EventKey {
        EventKey { calendar: self.calendar_id@, event: self.series_id@ }
    }

    /// The start as it was written.
    pub open spec fn raw_start(self) -> Seq<char> {
        match self.start {
            Some(s) => s@,
            None => Seq::empty(),
        }
    }

    /// The moment, as the day of an all-day row and as an INSTANT rather than
    /// as the text it arrived in. What cannot be read is compared as it stands.
    pub open spec fn start_key(self) -> StartText {
        if self.all_day {
            StartText::Day(day_part(self.raw_start()))
        } else {
            match read_instant(self.raw_start()) {
                Some(at) => StartText::At(at.millis()),
                None => StartText::Unread(self.raw_start()),
            }
        }
    }

    /// The user can act on the row.
    pub open spec fn can_act(self) -> bool {
        match self.actionable {
            Some(b) => b,
            None => !holds_meetings(self.calendar_id@),
        }
    }
}

/// The id of the group a row belongs to.
pub open spec fn group_id_of(groups: Seq<EventGroup>, event: FoldableEvent) -> Option<Seq<char>> {
    match group_of(groups, event.key()) {
        Some(g) => Some(groups[g].id@),
        None => None,
    }
}

/// Two rows of the group disagree about when the appointment is.
pub open spec fn has_diverged(
    events: Seq<FoldableEvent>,
    groups: Seq<EventGroup>,
    id: Seq<char>,
) -> bool {
    exists|i: int, j: int|
        0 <= i < events.len() && 0 <= j < events.len() && group_id_of(groups, #[trigger] events[i])
            == Some(id) && group_id_of(groups, #[trigger] events[j]) == Some(id)
            && events[i].start_key() != events[j].start_key()
}

/// The row among the first `n` that stands for a group: the first that can be
/// acted on, else the first at all.
pub open spec fn stands_for(
    events: Seq<FoldableEvent>,
    groups: Seq<EventGroup>,
    id: Seq<char>,
    n: int,
) -> Option<int>
    decreases n,
{
    if n <= 0 {
        None
    } else {
        let before = stands_for(events, groups, id, n - 1);
        if group_id_of(groups, events[n - 1]) != Some(id) {
            before
        } else {
            match before {
                None => Some(n - 1),
                Some(k) => if events[k].can_act() || !events[n - 1].can_act() {
                    Some(k)
                } else {
                    Some(n - 1)
                },
            }
        }
    }
}

/// Calendars with those of members added, each once.
pub open spec fn calendars_with(
    first: Seq<char>,
    members: Seq<EventGroupMember>,
) -> Seq<Seq<char>>
    decreases members.len(),
{
    if members.len() == 0 {
        seq![first]
    } else {
        let before = calendars_with(first, members.drop_last());
        let id = members.last().calendar_id@;
        if before.contains(id) {
            before
        } else {
            before.push(id)
        }
    }
}

/// A row that belongs to no group stands for itself.
pub open spec fn alone(events: Seq<FoldableEvent>, i: int) -> CollapsedText {
    CollapsedText {
        event: i,
        group_id: None,
        other_members: 0,
        calendar_ids: seq![events[i].calendar_id@],
        diverged: false,
    }
}

/// The row of a group in the slot of row `i`.
pub open spec fn group_row(
    events: Seq<FoldableEvent>,
    groups: Seq<EventGroup>,
    g: int,
    i: int,
) -> CollapsedText {
    let group = groups[g];
    let diverged = has_diverged(events, groups, group.id@);
    let shown = if diverged {
        i
    } else {
        match stands_for(events, groups, group.id@, events.len() as int) {
            Some(k) => k,
            None => i,
        }
    };
    CollapsedText {
        event: shown,
        group_id: Some(group.id@),
        other_members: if group.members@.len() == 0 {
            0
        } else {
            group.members@.len() - 1
        },
        calendar_ids: calendars_with(events[shown].calendar_id@, group.members@),
        diverged,
    }
}

/// The rows among the first `n` after folding, and the groups represented so
/// far. Folding removes rows; the slot is the first member's.
pub open spec fn folded_rows(
    events: Seq<FoldableEvent>,
    groups: Seq<EventGroup>,
    n: int,
) -> (Seq<CollapsedText>, Seq<Seq<char>>)
    decreases n,
{
    if n <= 0 {
        (Seq::empty(), Seq::empty())
    } else {
        let (rows, represented) = folded_rows(events, groups, n - 1);
        match group_of(groups, events[n - 1].key()) {
            None => (rows.push(alone(events, n - 1)), represented),
            Some(g) => {
                let id = groups[g].id@;
                if !has_diverged(events, groups, id) && represented.contains(id) {
                    (rows, represented)
                } else {
                    (
                        rows.push(group_row(events, groups, g, n - 1)),
                        if represented.contains(id) {
                            represented
                        } else {
                            represented.push(id)
                        },
                    )
                }
            },
        }
    }
}

enum StartKey {
    Day(String),
    At(i64),
    Unread(String),
}

impl View for StartKey {
    type V = StartText;

    closed spec fn view(&self) -> StartText {
        match *self {
            StartKey::Day(day) => StartText::Day(day@),
            StartKey::At(millis) => StartText::At(millis as int),
            StartKey::Unread(raw) => StartText::Unread(raw@),
        }
    }
}

fn start_key(event: &FoldableEvent) -> (r: StartKey)
    ensures
        r@ == event.start_key(),
{
    let raw = match &event.start {
        Some(s) => s.clone(),
        None => String::new(),
    };
    assert(raw@ =~= event.raw_start());
    if event.all_day {
        return StartKey::Day(take_day(raw.as_str()));
    }
    match parse_instant(raw.as_str()) {
        Some(at) => StartKey::At(at.millis()),
        None => StartKey::Unread(raw),
    }
}

fn same_start(a: &StartKey, b: &StartKey) -> (r: bool)
    ensures
        r == (a@ == b@),
{
    match (a, b) {
        (StartKey::Day(x), StartKey::Day(y)) => same(x.as_str(), y.as_str()),
        (StartKey::At(x), StartKey::At(y)) => *x == *y,
        (StartKey::Unread(x), StartKey::Unread(y)) => same(x.as_str(), y.as_str()),
        _ => false,
    }
}

fn actionable(event: &FoldableEvent) -> (r: bool)
    ensures
        r == event.can_act(),
{
    match event.actionable {
        Some(b) => b,
        None => !is_meeting_calendar(event.calendar_id.as_str()),
    }
}

fn group_at(groups: &[EventGroup], event: &FoldableEvent) -> (r: Option<usize>)
    ensures
        match r {
            Some(g) => group_of(groups@, event.key()) == Some(g as int) && g < groups@.len(),
            None => group_of(groups@, event.key()) is None,
        },
{
    find_group(groups, event.calendar_id.as_str(), event.series_id.as_str())
}

fn is_in(groups: &[EventGroup], event: &FoldableEvent, id: &str) -> (r: bool)
    ensures
        r == (group_id_of(groups@, *event) == Some(id@)),
{
    match group_at(groups, event) {
        Some(g) => same(groups[g].id.as_str(), id),
        None => false,
    }
}

fn diverged(events: &[FoldableEvent], groups: &[EventGroup], id: &str) -> (r: bool)
    ensures
        r == has_diverged(events@, groups@, id@),
{
    let mut first: Option<(usize, StartKey)> = None;
    let mut i: usize = 0;
    while i < events.len()
        invariant
            i <= events.len(),
            match first {
                None => forall|j: int|
                    0 <= j < i ==> group_id_of(groups@, #[trigger] events@[j]) != Some(id@),
                Some((k, key)) => k < i && group_id_of(groups@, events@[k as int]) == Some(id@)
                    && key@ == events@[k as int].start_key() && forall|j: int|
                    0 <= j < i && group_id_of(groups@, #[trigger] events@[j]) == Some(id@)
                        ==> events@[j].start_key() == key@,
            },
        decreases events.len() - i,
    {
        if is_in(groups, &events[i], id) {
            let key = start_key(&events[i]);
            match &first {
                None => {
                    first = Some((i, key));
                },
                Some((k, known)) => {
                    if !same_start(known, &key) {
                        assert(events@[*k as int].start_key() != events@[i as int].start_key());
                        return true;
                    }
                },
            }
        }
        i = i + 1;
    }
    false
}

fn representative(events: &[FoldableEvent], groups: &[EventGroup], id: &str) -> (r: Option<usize>)
    ensures
        match r {
            Some(k) => stands_for(events@, groups@, id@, events@.len() as int) == Some(k as int)
                && k < events@.len(),
            None => stands_for(events@, groups@, id@, events@.len() as int) is None,
        },
{
    let mut found: Option<usize> = None;
    let mut i: usize = 0;
    while i < events.len()
        invariant
            i <= events.len(),
            match found {
                Some(k) => stands_for(events@, groups@, id@, i as int) == Some(k as int) && k < i,
                None => stands_for(events@, groups@, id@, i as int) is None,
            },
        decreases events.len() - i,
    {
        if is_in(groups, &events[i], id) {
            match found {
                None => {
                    found = Some(i);
                },
                Some(k) => {
                    if !(actionable(&events[k]) || !actionable(&events[i])) {
                        found = Some(i);
                    }
                },
            }
        }
        i = i + 1;
    }
    found
}

fn calendars(first: &str, group: &EventGroup) -> (r: Vec<String>)
    ensures
        texts(r@) == calendars_with(first@, group.members@),
{
    let mut out: Vec<String> = Vec::new();
    out.push(first.to_owned());
    let ghost members = group.members@;
    let mut i: usize = 0;
    assert(texts(out@) =~= seq![first@]);
    while i < group.members.len()
        invariant
            i <= group.members.len(),
            members == group.members@,
            texts(out@) == calendars_with(first@, members.take(i as int)),
        decreases group.members.len() - i,
    {
        assert(members.take(i as int + 1).drop_last() =~= members.take(i as int));
        let id = &group.members[i].calendar_id;
        if !contains_text(out.as_slice(), id.as_str()) {
            let id = id.clone();
            proof {
                lemma_texts_push(out@, id);
            }
            out.push(id);
        }
        i = i + 1;
    }
    assert(members.take(i as int) =~= members);
    out
}

fn fold_group(
    events: &[FoldableEvent],
    groups: &[EventGroup],
    g: usize,
    i: usize,
    apart: bool,
) -> (r: CollapsedRow)
    requires
        g < groups@.len(),
        i < events@.len(),
        apart == has_diverged(events@, groups@, groups@[g as int].id@),
    ensures
        r@ == group_row(events@, groups@, g as int, i as int),
{
    let group = &groups[g];
    let shown: usize = if apart {
        i
    } else {
        match representative(events, groups, group.id.as_str()) {
            Some(k) => k,
            None => i,
        }
    };
    let count: usize = group.members.len();
    CollapsedRow {
        event: shown,
        group_id: Some(group.id.clone()),
        other_members: if count == 0 {
            0
        } else {
            count - 1
        },
        calendar_ids: calendars(events[shown].calendar_id.as_str(), group),
        diverged: apart,
    }
}

/// Folds each group's members into a single row, keeping the input order.
///
/// The representative is chosen over the whole window before anything is
/// emitted: the first ACTIONABLE member, else the first at all. The SLOT,
/// though, is the first member's: folding removes rows, it never moves one.
pub fn collapse_event_groups(events: &[FoldableEvent], groups: &[EventGroup]) -> (r: Vec<
    CollapsedRow,
>)
    ensures
        collapsed_texts(r@) == folded_rows(events@, groups@, events@.len() as int).0,
{
    let mut out: Vec<CollapsedRow> = Vec::new();
    let mut represented: Vec<String> = Vec::new();
    let mut i: usize = 0;
    assert(collapsed_texts(out@) =~= Seq::empty());
    assert(texts(represented@) =~= Seq::empty());
    while i < events.len()
        invariant
            i <= events.len(),
            folded_rows(events@, groups@, i as int) == (
                collapsed_texts(out@),
                texts(represented@),
            ),
        decreases events.len() - i,
    {
        let ghost before = collapsed_texts(out@);
        match group_at(groups, &events[i]) {
            None => {
                let mut own: Vec<String> = Vec::new();
                own.push(events[i].calendar_id.clone());
                assert(texts(own@) =~= seq![events@[i as int].calendar_id@]);
                let row = CollapsedRow {
                    event: i,
                    group_id: None,
                    other_members: 0,
                    calendar_ids: own,
                    diverged: false,
                };
                out.push(row);
                assert(collapsed_texts(out@) =~= before.push(row@));
            },
            Some(g) => {
                let id = groups[g].id.as_str();
                let apart = diverged(events, groups, id);
                let seen = contains_text(represented.as_slice(), id);
                if apart || !seen {
                    let row = fold_group(events, groups, g, i, apart);
                    out.push(row);
                    assert(collapsed_texts(out@) =~= before.push(row@));
                    if !seen {
                        let id = groups[g].id.clone();
                        proof {
                            lemma_texts_push(represented@, id);
                        }
                        represented.push(id);
                    }
                }
            },
        }
        i = i + 1;
    }
    out
}

/// Without groups every row stands for itself.
pub proof fn without_groups_every_row_stands_for_itself(events: Seq<FoldableEvent>, n: int)
    requires
        0 <= n <= events.len(),
    ensures
        folded_rows(events, Seq::empty(), n).0 == Seq::new(n as nat, |i: int| alone(events, i)),
    decreases n,
{
    let none = Seq::<EventGroup>::empty();
    if n > 0 {
        without_groups_every_row_stands_for_itself(events, n - 1);
        lemma_group_of(none, events[n - 1].key());
        assert(folded_rows(events, none, n).0 =~= Seq::new(n as nat, |i: int| alone(events, i)));
    } else {
        assert(folded_rows(events, none, n).0 =~= Seq::new(n as nat, |i: int| alone(events, i)));
    }
}

/// Every row in view is still accounted for: a row outside any group is drawn,
/// a row of a diverged group is drawn, and of every other group some row is.
pub proof fn folding_loses_no_appointment(
    events: Seq<FoldableEvent>,
    groups: Seq<EventGroup>,
    n: int,
    i: int,
)
    requires
        0 <= i < n <= events.len(),
    ensures
        ({
            let (rows, represented) = folded_rows(events, groups, n);
            match group_id_of(groups, events[i]) {
                None => exists|k: int|
                    0 <= k < rows.len() && (#[trigger] rows[k]) == alone(events, i),
                Some(id) => {
                    &&& represented.contains(id)
                    &&& exists|k: int|
                        0 <= k < rows.len() && (#[trigger] rows[k]).group_id == Some(id) && (
                        has_diverged(events, groups, id) ==> rows[k].event == i)
                },
            }
        }),
        forall|id: Seq<char>|
            folded_rows(events, groups, n).1.contains(id) ==> exists|k: int|
                0 <= k < folded_rows(events, groups, n).0.len() && (#[trigger] folded_rows(
                    events,
                    groups,
                    n,
                ).0[k]).group_id == Some(id),
    decreases n,
{
    lemma_represented(events, groups, n);
    let (rows, represented) = folded_rows(events, groups, n);
    let (before, known) = folded_rows(events, groups, n - 1);
    if i < n - 1 {
        folding_loses_no_appointment(events, groups, n - 1, i);
        assert(forall|k: int| 0 <= k < before.len() ==> rows[k] == before[k]);
        match group_id_of(groups, events[i]) {
            None => {
                let k = choose|k: int|
                    0 <= k < before.len() && (#[trigger] before[k]) == alone(events, i);
                assert(rows[k] == alone(events, i));
            },
            Some(id) => {
                let k = choose|k: int|
                    0 <= k < before.len() && (#[trigger] before[k]).group_id == Some(id) && (
                    has_diverged(events, groups, id) ==> before[k].event == i);
                assert(rows[k].group_id == Some(id));
                let m = choose|m: int| 0 <= m < known.len() && known[m] == id;
                assert(represented[m] == id);
            },
        }
    } else {
        match group_of(groups, events[i].key()) {
            None => {
                assert(rows[rows.len() - 1] == alone(events, i));
            },
            Some(g) => {
                let id = groups[g].id@;
                if has_diverged(events, groups, id) || !known.contains(id) {
                    assert(rows[rows.len() - 1].group_id == Some(id));
                    if !known.contains(id) {
                        assert(represented[represented.len() - 1] == id);
                    }
                }
            },
        }
    }
}

proof fn lemma_represented(events: Seq<FoldableEvent>, groups: Seq<EventGroup>, n: int)
    requires
        0 <= n <= events.len(),
    ensures
        forall|id: Seq<char>|
            folded_rows(events, groups, n).1.contains(id) ==> exists|k: int|
                0 <= k < folded_rows(events, groups, n).0.len() && (#[trigger] folded_rows(
                    events,
                    groups,
                    n,
                ).0[k]).group_id == Some(id),
    decreases n,
{
    if n > 0 {
        lemma_represented(events, groups, n - 1);
        let (rows, represented) = folded_rows(events, groups, n);
        let (before, known) = folded_rows(events, groups, n - 1);
        assert forall|id: Seq<char>| represented.contains(id) implies exists|k: int|
            0 <= k < rows.len() && (#[trigger] rows[k]).group_id == Some(id) by {
            if known.contains(id) {
                let k = choose|k: int|
                    0 <= k < before.len() && (#[trigger] before[k]).group_id == Some(id);
                assert(rows[k].group_id == Some(id));
            } else {
                let m = choose|m: int| 0 <= m < represented.len() && represented[m] == id;
                if m < known.len() {
                    assert(known[m] == id);
                }
                assert(rows[rows.len() - 1].group_id == Some(id));
            }
        }
    }
}

/// Folding never moves a row: the rows of the first `m` events stand at the
/// front of the rows of the first `n`, and no event adds more than one.
pub proof fn folding_never_moves_a_row(
    events: Seq<FoldableEvent>,
    groups: Seq<EventGroup>,
    m: int,
    n: int,
)
    requires
        0 <= m <= n <= events.len(),
    ensures
        folded_rows(events, groups, m).0.is_prefix_of(folded_rows(events, groups, n).0),
        folded_rows(events, groups, n).0.len() <= folded_rows(events, groups, m).0.len() + (n - m),
    decreases n,
{
    if m < n {
        folding_never_moves_a_row(events, groups, m, n - 1);
        let before = folded_rows(events, groups, n - 1).0;
        let rows = folded_rows(events, groups, n).0;
        assert(before =~= rows.subrange(0, before.len() as int));
        let first = folded_rows(events, groups, m).0;
        assert(first =~= rows.subrange(0, first.len() as int)) by {
            assert forall|k: int| 0 <= k < first.len() implies first[k] == rows[k] by {
                assert(first[k] == before.subrange(0, first.len() as int)[k]);
            }
        }
    }
}

/// A group whose copies agree on the time is one row: two rows of one group
/// are there only where it has diverged.
pub proof fn a_group_that_agrees_is_one_row(
    events: Seq<FoldableEvent>,
    groups: Seq<EventGroup>,
    n: int,
    k: int,
    l: int,
)
    requires
        0 <= n <= events.len(),
        0 <= k < l < folded_rows(events, groups, n).0.len(),
        folded_rows(events, groups, n).0[k].group_id is Some,
        folded_rows(events, groups, n).0[k].group_id == folded_rows(events, groups, n).0[l].group_id,
    ensures
        has_diverged(events, groups, folded_rows(events, groups, n).0[k].group_id->0),
    decreases n,
{
    if n > 0 {
        let (before, known) = folded_rows(events, groups, n - 1);
        let rows = folded_rows(events, groups, n).0;
        lemma_shown_is_represented(events, groups, n - 1);
        assert(forall|j: int| 0 <= j < before.len() ==> rows[j] == before[j]);
        if l < before.len() {
            a_group_that_agrees_is_one_row(events, groups, n - 1, k, l);
        } else {
            assert(known.contains(before[k].group_id->0));
        }
    }
}

proof fn lemma_shown_is_represented(
    events: Seq<FoldableEvent>,
    groups: Seq<EventGroup>,
    n: int,
)
    requires
        0 <= n <= events.len(),
    ensures
        forall|k: int|
            0 <= k < folded_rows(events, groups, n).0.len() && (#[trigger] folded_rows(
                events,
                groups,
                n,
            ).0[k]).group_id is Some ==> folded_rows(events, groups, n).1.contains(
                folded_rows(events, groups, n).0[k].group_id->0,
            ),
    decreases n,
{
    if n > 0 {
        lemma_shown_is_represented(events, groups, n - 1);
        let (before, known) = folded_rows(events, groups, n - 1);
        let (rows, represented) = folded_rows(events, groups, n);
        assert forall|k: int| 0 <= k < rows.len() && (#[trigger] rows[k]).group_id is Some implies
            represented.contains(rows[k].group_id->0) by {
            if k < before.len() {
                assert(rows[k] == before[k]);
                let id = before[k].group_id->0;
                let m = choose|m: int| 0 <= m < known.len() && known[m] == id;
                assert(represented[m] == id);
            } else {
                let id = rows[k].group_id->0;
                if !known.contains(id) {
                    assert(represented[represented.len() - 1] == id);
                } else {
                    let m = choose|m: int| 0 <= m < known.len() && known[m] == id;
                    assert(represented[m] == id);
                }
            }
        }
    }
}

// ---------------------------------------------------------------------------
// What a row says
// ---------------------------------------------------------------------------

/// The user can act on a row: it says so, or says nothing and is of no meetings
/// calendar.
pub open spec fn acts(event: FoldableEvent) -> bool {
    event.actionable == Some(true) || (event.actionable is None && !ends_with(
        event.calendar_id@,
        "::meetings"@,
    ))
}

/// Two rows are of one group and do not agree about the time.
pub open spec fn disagree(
    events: Seq<FoldableEvent>,
    groups: Seq<EventGroup>,
    id: Seq<char>,
    i: int,
    j: int,
) -> bool {
    &&& 0 <= i < events.len() && 0 <= j < events.len()
    &&& group_id_of(groups, events[i]) == Some(id) && group_id_of(groups, events[j]) == Some(id)
    &&& events[i].start_key() != events[j].start_key()
}

/// What holds of a row after folding. One of no group stands for itself. One of a
/// group shows a row of it: the first of the window that can be acted on, or the
/// first at all, where the group agrees about the time. It counts the others of
/// the group, and names its own calendar first and then each other the group
/// spans, once.
pub open spec fn is_fair(
    events: Seq<FoldableEvent>,
    groups: Seq<EventGroup>,
    row: CollapsedText,
) -> bool {
    &&& 0 <= row.event < events.len()
    &&& row.calendar_ids.len() > 0
    &&& row.calendar_ids[0] == events[row.event].calendar_id@
    &&& row.calendar_ids.no_duplicates()
    &&& row.group_id == group_id_of(groups, events[row.event])
    &&& match row.group_id {
        None => row.other_members == 0 && !row.diverged && row.calendar_ids.len() == 1,
        Some(id) => is_fair_for(events, groups, row, id),
    }
}

/// What holds of the row of a group.
pub open spec fn is_fair_for(
    events: Seq<FoldableEvent>,
    groups: Seq<EventGroup>,
    row: CollapsedText,
    id: Seq<char>,
) -> bool {
    &&& row.diverged <==> exists|i: int, j: int| #[trigger] disagree(events, groups, id, i, j)
    &&& !row.diverged ==> is_best(events, groups, id, row.event)
    &&& exists|g: int|
        0 <= g < groups.len() && (#[trigger] groups[g]).id@ == id && spans(groups[g], row)
}

/// A row of a group is the first that can be acted on, or the first at all where
/// none can.
pub open spec fn is_best(
    events: Seq<FoldableEvent>,
    groups: Seq<EventGroup>,
    id: Seq<char>,
    shown: int,
) -> bool {
    forall|j: int|
        0 <= j < events.len() && group_id_of(groups, #[trigger] events[j]) == Some(id) ==> (acts(
            events[j],
        ) ==> acts(events[shown])) && (j < shown ==> acts(events[shown]) && !acts(events[j]))
}

/// A row counts the others of a group and names its calendars.
pub open spec fn spans(group: EventGroup, row: CollapsedText) -> bool {
    &&& row.other_members + 1 == group.members@.len()
    &&& forall|c: Seq<char>| #[trigger]
        row.calendar_ids.contains(c) <==> c == row.calendar_ids[0] || exists|k: int|
            0 <= k < group.members@.len() && (#[trigger] group.members@[k]).calendar_id@ == c
}

proof fn lemma_stands_for(
    events: Seq<FoldableEvent>,
    groups: Seq<EventGroup>,
    id: Seq<char>,
    n: int,
)
    requires
        0 <= n <= events.len(),
    ensures
        match stands_for(events, groups, id, n) {
            Some(k) => {
                &&& 0 <= k < n
                &&& group_id_of(groups, events[k]) == Some(id)
                &&& forall|j: int|
                    0 <= j < n && group_id_of(groups, #[trigger] events[j]) == Some(id) ==> (acts(
                        events[j],
                    ) ==> acts(events[k])) && (j < k ==> acts(events[k]) && !acts(events[j]))
            },
            None => forall|j: int|
                0 <= j < n ==> group_id_of(groups, #[trigger] events[j]) != Some(id),
        },
    decreases n,
{
    if n > 0 {
        lemma_stands_for(events, groups, id, n - 1);
        assert(events[n - 1].can_act() == acts(events[n - 1]));
        if let Some(k) = stands_for(events, groups, id, n - 1) {
            assert(events[k].can_act() == acts(events[k]));
        }
    }
}

proof fn lemma_calendars(
    first: Seq<char>,
    members: Seq<EventGroupMember>,
)
    ensures
        ({
            let r = calendars_with(first, members);
            &&& r.len() > 0
            &&& r[0] == first
            &&& r.no_duplicates()
            &&& forall|c: Seq<char>| #[trigger]
                r.contains(c) <==> c == first || exists|k: int|
                    0 <= k < members.len() && (#[trigger] members[k]).calendar_id@ == c
        }),
    decreases members.len(),
{
    let r = calendars_with(first, members);
    if members.len() == 0 {
        assert(r[0] == first);
    } else {
        let front = members.drop_last();
        let before = calendars_with(first, front);
        let id = members.last().calendar_id@;
        lemma_calendars(first, front);
        assert(members[members.len() - 1] == members.last());
        assert forall|c: Seq<char>| #[trigger] r.contains(c) <==> c == first || exists|k: int|
            0 <= k < members.len() && (#[trigger] members[k]).calendar_id@ == c by {
            if r.contains(c) {
                let k = choose|k: int| 0 <= k < r.len() && r[k] == c;
                if k < before.len() {
                    assert(before[k] == c);
                    assert(before.contains(c));
                    if c != first {
                        let m = choose|m: int|
                            0 <= m < front.len() && (#[trigger] front[m]).calendar_id@ == c;
                        assert(members[m] == front[m]);
                    }
                } else {
                    assert(members[members.len() - 1].calendar_id@ == c);
                }
            }
            if c == first {
                assert(before[0] == first);
                assert(r[0] == first);
            }
            if exists|k: int| 0 <= k < members.len() && (#[trigger] members[k]).calendar_id@ == c {
                let m = choose|m: int|
                    0 <= m < members.len() && (#[trigger] members[m]).calendar_id@ == c;
                if m < front.len() {
                    assert(front[m] == members[m]);
                    assert(before.contains(c));
                    let k = choose|k: int| 0 <= k < before.len() && before[k] == c;
                    assert(r[k] == c);
                } else if before.contains(id) {
                    let k = choose|k: int| 0 <= k < before.len() && before[k] == c;
                    assert(r[k] == c);
                } else {
                    assert(r[before.len() as int] == c);
                }
            }
        }
        if !before.contains(id) {
            assert forall|a: int, b: int| 0 <= a < b < r.len() implies r[a] != r[b] by {
                if b == before.len() {
                    assert(before.contains(before[a]));
                }
            }
        }
    }
}

proof fn lemma_group_row(
    events: Seq<FoldableEvent>,
    groups: Seq<EventGroup>,
    g: int,
    i: int,
)
    requires
        0 <= i < events.len(),
        group_of(groups, events[i].key()) == Some(g),
    ensures
        is_fair(events, groups, group_row(events, groups, g, i)),
{
    let row = group_row(events, groups, g, i);
    let group = groups[g];
    let id = group.id@;
    let n = events.len() as int;
    lemma_group_of(groups, events[i].key());
    lemma_stands_for(events, groups, id, n);
    assert(group_id_of(groups, events[i]) == Some(id));
    lemma_calendars(events[row.event].calendar_id@, group.members@);
    let m = choose|m: int|
        0 <= m < group.members@.len() && (#[trigger] group.members@[m]).key() == events[i].key();
    assert(group.members@.len() > 0);
    assert(spans(groups[g], row));
    if has_diverged(events, groups, id) {
        let (a, b) = choose|a: int, b: int|
            0 <= a < events.len() && 0 <= b < events.len() && group_id_of(
                groups,
                #[trigger] events[a],
            ) == Some(id) && group_id_of(groups, #[trigger] events[b]) == Some(id)
                && events[a].start_key() != events[b].start_key();
        assert(disagree(events, groups, id, a, b));
    }
    if exists|a: int, b: int| #[trigger] disagree(events, groups, id, a, b) {
        let (a, b) = choose|a: int, b: int| #[trigger] disagree(events, groups, id, a, b);
        assert(group_id_of(groups, events[a]) == Some(id) && group_id_of(groups, events[b])
            == Some(id));
        assert(has_diverged(events, groups, id));
    }
    assert(group_id_of(groups, events[i]) == Some(id));
    assert(0 <= row.event < events.len());
    assert(row.group_id == group_id_of(groups, events[row.event]));
    assert(row.diverged == has_diverged(events, groups, id));
    let shown = row.event;
    if !row.diverged {
        assert(shown == stands_for(events, groups, id, n)->0);
        assert forall|j: int|
            0 <= j < events.len() && group_id_of(groups, #[trigger] events[j]) == Some(
                id,
            ) implies (acts(events[j]) ==> acts(events[shown])) && (j < shown ==> acts(
            events[shown],
        ) && !acts(events[j])) by {}
    }
    assert(row.group_id == Some(id));
    assert(row.diverged <==> exists|a: int, b: int| #[trigger] disagree(events, groups, id, a, b));
    assert(exists|x: int|
        0 <= x < groups.len() && (#[trigger] groups[x]).id@ == id && spans(groups[x], row)) by {
        assert(groups[g].id@ == id && spans(groups[g], row));
    }
    assert(is_fair_for(events, groups, row, id));
}

/// Every row after folding shows what it should, counts the others of its group
/// and names its calendars.
pub proof fn every_row_shows_what_it_stands_for(
    events: Seq<FoldableEvent>,
    groups: Seq<EventGroup>,
    n: int,
    k: int,
)
    requires
        0 <= n <= events.len(),
        0 <= k < folded_rows(events, groups, n).0.len(),
    ensures
        is_fair(events, groups, folded_rows(events, groups, n).0[k]),
    decreases n,
{
    let rows = folded_rows(events, groups, n).0;
    let before = folded_rows(events, groups, n - 1).0;
    if k < before.len() {
        assert(rows[k] == before[k]);
        every_row_shows_what_it_stands_for(events, groups, n - 1, k);
    } else {
        match group_of(groups, events[n - 1].key()) {
            None => {
                assert(rows[k] == alone(events, n - 1));
            },
            Some(g) => {
                lemma_group_row(events, groups, g, n - 1);
            },
        }
    }
}

} // verus!
