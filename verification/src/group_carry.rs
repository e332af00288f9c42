//! Carrying a change to the other copies.
//!
//! A group says several events mean the same appointment. When the appointment
//! moves, all of them have to move: that is the second thing groups are for,
//! after not being read out four times.
//!
//! Two things are deliberately narrow.
//!
//! WHICH FIELDS travel: what the appointment IS (title, when, where, what it
//! says), and nothing that is a property of the copy. Reminders above all: the
//! private copy usually exists precisely because it has a reminder the work one
//! does not.
//!
//! WHICH MEMBERS travel: only those that may be written. "Carry to all" must
//! SAY which members it could not do rather than skip them quietly, otherwise it
//! produces exactly the contradiction it set out to prevent.
//!
//! The answer is FIELD VALUES, not rows: the caller lays them over what it
//! already holds, so a copy's reminder, the reason it exists, stays untouched.

use vstd::prelude::*;

use crate::civil::{
    euclid, millis_text, moment_at_millis, parse_instant, read_instant, write_millis, Instant,
};
use crate::text::{copy_optional, optional_text, same};

verus! {

/// The fields a change is carried in.
#[derive(Debug, Clone, PartialEq, Eq)]
pub struct CarryableFields {
    pub title: String,
    pub start: String,
    pub end: String,
    pub all_day: bool,
    pub location: Option<String>,
    pub description: Option<String>,
}

/// What [`CarryableFields`] hold.
pub struct FieldTexts {
    pub title: Seq<char>,
    pub start: Seq<char>,
    pub end: Seq<char>,
    pub all_day: bool,
    pub location: Option<Seq<char>>,
    pub description: Option<Seq<char>>,
}

impl View for CarryableFields {
    type V = FieldTexts;

    open spec fn view(&self) -> FieldTexts {
        FieldTexts {
            title: self.title@,
            start: self.start@,
            end: self.end@,
            all_day: self.all_day,
            location: optional_text(self.location),
            description: optional_text(self.description),
        }
    }
}

/// One of the fields that travel.
#[derive(Debug, Clone, Copy, PartialEq, Eq, Structural)]
pub enum CarryField {
    Title,
    Start,
    End,
    AllDay,
    Location,
    Description,
}

/// The order they are reported in, which is the order they are declared in.
const CARRIED: [CarryField; 6] = [
    CarryField::Title,
    CarryField::Start,
    CarryField::End,
    CarryField::AllDay,
    CarryField::Location,
    CarryField::Description,
];

/// Every field that travels, in order.
pub open spec fn carried_fields() -> Seq<CarryField> {
    seq![
        CarryField::Title,
        CarryField::Start,
        CarryField::End,
        CarryField::AllDay,
        CarryField::Location,
        CarryField::Description,
    ]
}

/// One member of the group, as the caller knows it.
#[derive(Debug, Clone, PartialEq, Eq)]
pub struct CarryTarget {
    pub calendar_id: String,
    pub event_id: String,
    /// The name to show when reporting what happened to it.
    pub title: String,
    /// Whether the calendar it lives in may be written.
    pub writable: bool,
}

/// What a [`CarryTarget`] holds.
pub struct TargetText {
    pub calendar_id: Seq<char>,
    pub event_id: Seq<char>,
    pub title: Seq<char>,
    pub writable: bool,
}

impl View for CarryTarget {
    type V = TargetText;

    open spec fn view(&self) -> TargetText {
        TargetText {
            calendar_id: self.calendar_id@,
            event_id: self.event_id@,
            title: self.title@,
            writable: self.writable,
        }
    }
}

/// What a list of members holds.
pub open spec fn target_texts(list: Seq<CarryTarget>) -> Seq<TargetText> {
    Seq::new(list.len(), |i: int| list[i]@)
}

/// What carrying would do, decided before anything is written.
#[derive(Debug, Clone, PartialEq, Eq)]
pub struct CarryPlan {
    /// The fields that actually differ from the saved event.
    pub changed: Vec<CarryField>,
    /// Members that can and will be written.
    pub targets: Vec<CarryTarget>,
    /// Members that must be left alone, and the user has to be told about.
    pub skipped: Vec<CarryTarget>,
    /// Whether the plan is worth asking the user about at all.
    pub worth_carrying: bool,
}

/// Everything [`plan_carry`] needs, in one value.
#[derive(Debug, Clone, PartialEq, Eq)]
pub struct PlanCarryInput {
    /// The group's membership, annotated with what only a surface knows.
    pub members: Vec<CarryTarget>,
    pub anchor_calendar_id: String,
    pub anchor_event_id: String,
    pub before: CarryableFields,
    pub after: CarryableFields,
}

/// Everything the two row-shaped rules need, in one value.
#[derive(Debug, Clone, PartialEq, Eq)]
pub struct CarryRowInput {
    /// The member's own current values.
    pub master: CarryableFields,
    /// The instant this copy is cut at, or the occurrence being replaced.
    pub at: String,
    pub before: CarryableFields,
    pub after: CarryableFields,
    pub changed: Vec<CarryField>,
}

/// Empty and absent are the same thing: providers disagree about which they
/// return for a field the user never filled in.
pub open spec fn filled_in(value: Option<Seq<char>>) -> Option<Seq<char>> {
    match value {
        Some(s) => if s.len() > 0 {
            Some(s)
        } else {
            None
        },
        None => None,
    }
}

/// The milliseconds an instant's text names.
pub open spec fn millis_in(text: Seq<char>) -> Option<int> {
    match read_instant(text) {
        Some(at) => Some(at.millis()),
        None => None,
    }
}

/// Whether two texts name the same instant; texts that name none are compared
/// as they stand.
pub open spec fn at_the_same_time(a: Seq<char>, b: Seq<char>) -> bool {
    match (millis_in(a), millis_in(b)) {
        (Some(x), Some(y)) => x == y,
        _ => a == b,
    }
}

/// Whether an edit changed a field.
pub open spec fn edited(field: CarryField, before: FieldTexts, after: FieldTexts) -> bool {
    match field {
        CarryField::Title => before.title != after.title,
        CarryField::Start => !at_the_same_time(before.start, after.start),
        CarryField::End => !at_the_same_time(before.end, after.end),
        CarryField::AllDay => before.all_day != after.all_day,
        CarryField::Location => filled_in(before.location) != filled_in(after.location),
        CarryField::Description => filled_in(before.description) != filled_in(after.description),
    }
}

/// The fields of a list that an edit changed, in its order.
pub open spec fn edited_among(
    fields: Seq<CarryField>,
    before: FieldTexts,
    after: FieldTexts,
) -> Seq<CarryField>
    decreases fields.len(),
{
    if fields.len() == 0 {
        Seq::empty()
    } else {
        let front = edited_among(fields.drop_last(), before, after);
        if edited(fields.last(), before, after) {
            front.push(fields.last())
        } else {
            front
        }
    }
}

/// The members beside the anchor that can be written, or the ones that cannot.
pub open spec fn members_that(
    members: Seq<TargetText>,
    calendar_id: Seq<char>,
    event_id: Seq<char>,
    writable: bool,
) -> Seq<TargetText>
    decreases members.len(),
{
    if members.len() == 0 {
        Seq::empty()
    } else {
        let front = members_that(members.drop_last(), calendar_id, event_id, writable);
        let last = members.last();
        if (last.calendar_id != calendar_id || last.event_id != event_id) && last.writable
            == writable {
            front.push(last)
        } else {
            front
        }
    }
}

fn millis(iso: &str) -> (r: Option<i64>)
    ensures
        match r {
            Some(ms) => millis_in(iso@) == Some(ms as int) && -8_334_601_228_800_000 <= ms
                < 8_210_266_876_801_000,
            None => millis_in(iso@) is None,
        },
{
    match parse_instant(iso) {
        Some(at) => Some(at.millis()),
        None => None,
    }
}

fn same_instant(a: &str, b: &str) -> (r: bool)
    ensures
        r == at_the_same_time(a@, b@),
{
    match (millis(a), millis(b)) {
        (Some(x), Some(y)) => x == y,
        _ => same(a, b),
    }
}

fn same_filled(a: &Option<String>, b: &Option<String>) -> (r: bool)
    ensures
        r == (filled_in(optional_text(*a)) == filled_in(optional_text(*b))),
{
    let x = match a {
        Some(s) => s.as_str(),
        None => "",
    };
    let y = match b {
        Some(s) => s.as_str(),
        None => "",
    };
    proof {
        reveal_strlit("");
        assert(x@.len() == 0 ==> x@ =~= ""@);
        assert(y@.len() == 0 ==> y@ =~= ""@);
    }
    same(x, y)
}

fn differs(before: &CarryableFields, after: &CarryableFields, field: CarryField) -> (r: bool)
    ensures
        r == edited(field, before@, after@),
{
    match field {
        CarryField::Title => !same(before.title.as_str(), after.title.as_str()),
        CarryField::Start => !same_instant(before.start.as_str(), after.start.as_str()),
        CarryField::End => !same_instant(before.end.as_str(), after.end.as_str()),
        CarryField::AllDay => before.all_day != after.all_day,
        CarryField::Location => !same_filled(&before.location, &after.location),
        CarryField::Description => !same_filled(&before.description, &after.description),
    }
}

fn find_edited(before: &CarryableFields, after: &CarryableFields) -> (r: Vec<CarryField>)
    ensures
        r@ == edited_among(carried_fields(), before@, after@),
{
    let all = CARRIED;
    assert(all@ =~= carried_fields());
    let mut changed: Vec<CarryField> = Vec::new();
    let mut i: usize = 0;
    while i < all.len()
        invariant
            i <= all@.len(),
            all@ == carried_fields(),
            changed@ == edited_among(all@.take(i as int), before@, after@),
        decreases all@.len() - i,
    {
        assert(all@.take(i as int + 1).drop_last() =~= all@.take(i as int));
        let field = all[i];
        if differs(before, after, field) {
            changed.push(field);
        }
        i = i + 1;
    }
    assert(all@.take(i as int) =~= all@);
    changed
}

fn find_members(
    members: &[CarryTarget],
    calendar_id: &str,
    event_id: &str,
    writable: bool,
) -> (r: Vec<CarryTarget>)
    ensures
        target_texts(r@) == members_that(
            target_texts(members@),
            calendar_id@,
            event_id@,
            writable,
        ),
{
    let ghost all = target_texts(members@);
    let mut out: Vec<CarryTarget> = Vec::new();
    let mut i: usize = 0;
    assert(target_texts(out@) =~= Seq::empty());
    while i < members.len()
        invariant
            i <= members.len(),
            all == target_texts(members@),
            target_texts(out@) == members_that(
                all.take(i as int),
                calendar_id@,
                event_id@,
                writable,
            ),
        decreases members.len() - i,
    {
        assert(all.take(i as int + 1).drop_last() =~= all.take(i as int));
        assert(all.take(i as int + 1).last() == members@[i as int]@);
        let anchor = same(members[i].calendar_id.as_str(), calendar_id) && same(
            members[i].event_id.as_str(),
            event_id,
        );
        if !anchor && members[i].writable == writable {
            let ghost before = target_texts(out@);
            let member = CarryTarget {
                calendar_id: members[i].calendar_id.clone(),
                event_id: members[i].event_id.clone(),
                title: members[i].title.clone(),
                writable: members[i].writable,
            };
            out.push(member);
            assert(target_texts(out@) =~= before.push(member@));
        }
        i = i + 1;
    }
    assert(all.take(i as int) =~= all);
    out
}

/// What carrying this edit to the group's other copies would do.
///
/// Decided from the data, before the question is even asked: with nothing
/// changed there is nothing to carry and no reason to ask, and with every other
/// member read-only the honest answer is "this cannot be carried" rather than a
/// dialog that does nothing.
///
/// `members` is the group's membership, already annotated by the caller with the
/// name to show and whether it may be written, two things only a surface knows.
/// The `anchor` is the copy that was edited, by calendar and event, and is
/// excluded, having been saved already.
pub fn plan_carry(
    members: &[CarryTarget],
    anchor: (&str, &str),
    before: &CarryableFields,
    after: &CarryableFields,
) -> (r: CarryPlan)
    ensures
        r.changed@ == edited_among(carried_fields(), before@, after@),
        target_texts(r.targets@) == members_that(
            target_texts(members@),
            anchor.0@,
            anchor.1@,
            true,
        ),
        target_texts(r.skipped@) == members_that(
            target_texts(members@),
            anchor.0@,
            anchor.1@,
            false,
        ),
        r.worth_carrying == (r.changed@.len() > 0 && r.targets@.len() > 0),
{
    let changed = find_edited(before, after);
    let targets = find_members(members, anchor.0, anchor.1, true);
    let skipped = find_members(members, anchor.0, anchor.1, false);
    let worth_carrying = changed.len() > 0 && targets.len() > 0;
    CarryPlan { changed, targets, skipped, worth_carrying }
}

/// A member's values with the changed fields taken from the edit.
pub open spec fn carried_onto(
    member: FieldTexts,
    after: FieldTexts,
    changed: Seq<CarryField>,
) -> FieldTexts {
    FieldTexts {
        title: if changed.contains(CarryField::Title) {
            after.title
        } else {
            member.title
        },
        start: if changed.contains(CarryField::Start) {
            after.start
        } else {
            member.start
        },
        end: if changed.contains(CarryField::End) {
            after.end
        } else {
            member.end
        },
        all_day: if changed.contains(CarryField::AllDay) {
            after.all_day
        } else {
            member.all_day
        },
        location: if changed.contains(CarryField::Location) {
            after.location
        } else {
            member.location
        },
        description: if changed.contains(CarryField::Description) {
            after.description
        } else {
            member.description
        },
    }
}

fn names_field(fields: &[CarryField], field: CarryField) -> (r: bool)
    ensures
        r == fields@.contains(field),
{
    let mut i: usize = 0;
    while i < fields.len()
        invariant
            i <= fields.len(),
            forall|k: int| 0 <= k < i ==> fields@[k] != field,
        decreases fields.len() - i,
    {
        if fields[i] == field {
            return true;
        }
        i = i + 1;
    }
    false
}

/// Apply the carried fields onto one member's own current values.
///
/// A member keeps everything else it has: its calendar, its colour, and above
/// all its reminders. Only what the appointment IS travels.
pub fn carry_onto(
    member: &CarryableFields,
    after: &CarryableFields,
    changed: &[CarryField],
) -> (r: CarryableFields)
    ensures
        r@ == carried_onto(member@, after@, changed@),
{
    CarryableFields {
        title: if names_field(changed, CarryField::Title) {
            after.title.clone()
        } else {
            member.title.clone()
        },
        start: if names_field(changed, CarryField::Start) {
            after.start.clone()
        } else {
            member.start.clone()
        },
        end: if names_field(changed, CarryField::End) {
            after.end.clone()
        } else {
            member.end.clone()
        },
        all_day: if names_field(changed, CarryField::AllDay) {
            after.all_day
        } else {
            member.all_day
        },
        location: if names_field(changed, CarryField::Location) {
            copy_optional(&after.location)
        } else {
            copy_optional(&member.location)
        },
        description: if names_field(changed, CarryField::Description) {
            copy_optional(&after.description)
        } else {
            copy_optional(&member.description)
        },
    }
}

/// An instant the way every caller's rows are spelled, where there is one.
pub open spec fn iso_at(ms: int) -> Option<Seq<char>> {
    if moment_at_millis(ms).valid() {
        Some(millis_text(moment_at_millis(ms)))
    } else {
        None
    }
}

fn iso(ms: i64) -> (r: Option<String>)
    ensures
        optional_text(r) == iso_at(ms as int),
{
    match Instant::from_timestamp_millis(ms) {
        Some(at) => Some(write_millis(at)),
        None => None,
    }
}

/// How long an event lasts, in milliseconds; nothing where it cannot be read,
/// and never less than nothing.
pub open spec fn length_between(start: Seq<char>, end: Seq<char>, unknown: int) -> int {
    match (millis_in(start), millis_in(end)) {
        (Some(a), Some(b)) => if b > a {
            b - a
        } else {
            0
        },
        _ => unknown,
    }
}

fn find_length(start: &str, end: &str, unknown: i64) -> (r: i64)
    requires
        0 <= unknown <= 16_544_868_105_601_000,
    ensures
        r == length_between(start@, end@, unknown as int),
        0 <= r <= 16_544_868_105_601_000,
{
    match (millis(start), millis(end)) {
        (Some(a), Some(b)) => if b > a {
            b - a
        } else {
            0
        },
        _ => unknown,
    }
}

/// A member's values moved to another time.
pub open spec fn moved_to(member: FieldTexts, start: Seq<char>, end: Seq<char>) -> FieldTexts {
    FieldTexts { start, end, ..member }
}

/// The fields of a carried occurrence edit.
pub open spec fn occurrence_carried(
    master: FieldTexts,
    occurrence: Seq<char>,
    after: FieldTexts,
    changed: Seq<CarryField>,
) -> Option<FieldTexts> {
    match millis_in(occurrence) {
        Some(ms) => match iso_at(ms + length_between(master.start, master.end, 0)) {
            Some(end) => Some(carried_onto(moved_to(master, occurrence, end), after, changed)),
            None => None,
        },
        None => None,
    }
}

/// What optional fields hold.
pub open spec fn optional_fields(o: Option<CarryableFields>) -> Option<FieldTexts> {
    match o {
        Some(f) => Some(f@),
        None => None,
    }
}

fn move_to(member: &CarryableFields, start: String, end: String) -> (r: CarryableFields)
    ensures
        r@ == moved_to(member@, start@, end@),
{
    CarryableFields {
        title: member.title.clone(),
        start,
        end,
        all_day: member.all_day,
        location: copy_optional(&member.location),
        description: copy_optional(&member.description),
    }
}

/// The fields of the standalone row a carried OCCURRENCE edit creates.
///
/// An occurrence edit is not an update: the series gets an exception and a
/// single event is created in its place. Carrying it means doing that on each
/// copy, and the row created there is NOT the anchor's: it is the member's own
/// occurrence with the carried fields laid over it.
///
/// Start and end come from the member's own occurrence unless the edit MOVED it:
/// a title-only edit must not drag the copy to the master's start, and a moved
/// occurrence must land where the user put it.
///
/// `None` when the occurrence instant cannot be read, or its end lies beyond
/// the calendar.
pub fn occurrence_carry_fields(
    master: &CarryableFields,
    occurrence_iso: &str,
    after: &CarryableFields,
    changed: &[CarryField],
) -> (r: Option<CarryableFields>)
    ensures
        optional_fields(r) == occurrence_carried(master@, occurrence_iso@, after@, changed@),
{
    let occurrence: i64 = match millis(occurrence_iso) {
        Some(ms) => ms,
        None => {
            return None;
        },
    };
    let length: i64 = find_length(master.start.as_str(), master.end.as_str(), 0);
    match iso(occurrence + length) {
        Some(end) => {
            let row = move_to(master, occurrence_iso.to_owned(), end);
            Some(carry_onto(&row, after, changed))
        },
        None => None,
    }
}

/// The milliseconds of a day.
pub const DAY_MS: i64 = 86_400_000;

/// How many whole days a shift is, rounding a tie towards the FUTURE: an anchor
/// moved back by exactly twelve hours does not move an all-day copy at all.
pub open spec fn days_in(ms: int) -> int {
    (ms + DAY_MS / 2) / DAY_MS as int
}

fn whole_days(ms: i64) -> (r: i64)
    requires
        -16_544_868_105_601_000 <= ms <= 16_544_868_105_601_000,
    ensures
        r == days_in(ms as int),
{
    let shifted: i64 = ms + DAY_MS / 2;
    let rest = euclid(shifted, DAY_MS);
    (shifted - rest) / DAY_MS
}

/// How far an edit moved the start.
pub open spec fn moved_by(
    before: FieldTexts,
    after: FieldTexts,
    changed: Seq<CarryField>,
) -> int {
    if changed.contains(CarryField::Start) {
        match (millis_in(after.start), millis_in(before.start)) {
            (Some(a), Some(b)) => a - b,
            _ => 0,
        }
    } else {
        0
    }
}

/// The fields without the start and the end.
pub open spec fn without_times(changed: Seq<CarryField>) -> Seq<CarryField>
    decreases changed.len(),
{
    if changed.len() == 0 {
        Seq::empty()
    } else if changed.last() is Start || changed.last() is End {
        without_times(changed.drop_last())
    } else {
        without_times(changed.drop_last()).push(changed.last())
    }
}

/// The fields of a carried "this and all following" edit.
pub open spec fn future_carried(
    master: FieldTexts,
    anchor: Seq<char>,
    before: FieldTexts,
    after: FieldTexts,
    changed: Seq<CarryField>,
) -> Option<FieldTexts> {
    match millis_in(anchor) {
        Some(cut) => {
            let own = length_between(master.start, master.end, 0);
            let shift = moved_by(before, after, changed);
            let start = cut + if master.all_day {
                days_in(shift) * DAY_MS
            } else {
                shift
            };
            let length = if changed.contains(CarryField::End) && master.all_day == after.all_day {
                length_between(after.start, after.end, own)
            } else {
                own
            };
            match (iso_at(start), iso_at(start + length)) {
                (Some(from), Some(to)) => Some(
                    carried_onto(moved_to(master, from, to), after, without_times(changed)),
                ),
                _ => None,
            }
        },
        None => None,
    }
}

fn leave_times(changed: &[CarryField]) -> (r: Vec<CarryField>)
    ensures
        r@ == without_times(changed@),
{
    let mut rest: Vec<CarryField> = Vec::new();
    let mut i: usize = 0;
    while i < changed.len()
        invariant
            i <= changed.len(),
            rest@ == without_times(changed@.take(i as int)),
        decreases changed.len() - i,
    {
        assert(changed@.take(i as int + 1).drop_last() =~= changed@.take(i as int));
        let field = changed[i];
        if field != CarryField::Start && field != CarryField::End {
            rest.push(field);
        }
        i = i + 1;
    }
    assert(changed@.take(i as int) =~= changed@);
    rest
}

/// The fields of the row a carried "this and all following" edit creates.
///
/// Unlike [`occurrence_carry_fields`] this one carries the MOVE, not the
/// instant. The two scopes differ exactly there: an occurrence edit lands on one
/// instant that every copy shares, while "and all following" cuts each copy at
/// ITS own next occurrence, which need not be the anchor's. So what travels is
/// the SHIFT the user made (start moved by so much, duration is now so long),
/// applied to the copy's own cut point.
///
/// Two deliberate narrowings:
///   - an ALL-DAY copy moves in whole days, whatever the anchor's shift was to
///     the minute; a start that is not local midnight is not an all-day event;
///   - the anchor's new DURATION is adopted only when both agree about being
///     all-day, so an hour-long edit cannot shrink an all-day copy to an hour.
///
/// `None` means this copy could not be carried: a cut point that cannot be read
/// has no answer, and inventing one would put a row at an instant nobody chose.
pub fn future_carry_fields(
    master: &CarryableFields,
    anchor_iso: &str,
    before: &CarryableFields,
    after: &CarryableFields,
    changed: &[CarryField],
) -> (r: Option<CarryableFields>)
    ensures
        optional_fields(r) == future_carried(master@, anchor_iso@, before@, after@, changed@),
{
    let cut: i64 = match millis(anchor_iso) {
        Some(ms) => ms,
        None => {
            return None;
        },
    };
    let own: i64 = find_length(master.start.as_str(), master.end.as_str(), 0);
    let moved: i64 = if names_field(changed, CarryField::Start) {
        match (millis(after.start.as_str()), millis(before.start.as_str())) {
            (Some(a), Some(b)) => a - b,
            _ => 0,
        }
    } else {
        0
    };
    let shift: i64 = if master.all_day {
        whole_days(moved) * DAY_MS
    } else {
        moved
    };
    let length: i64 = if names_field(changed, CarryField::End) && master.all_day
        == after.all_day {
        find_length(after.start.as_str(), after.end.as_str(), own)
    } else {
        own
    };
    let start: i64 = cut + shift;
    match (iso(start), iso(start + length)) {
        (Some(from), Some(to)) => {
            let row = move_to(master, from, to);
            let rest = leave_times(changed);
            Some(carry_onto(&row, after, rest.as_slice()))
        },
        _ => None,
    }
}

// ---------------------------------------------------------------------------
// Laws
// ---------------------------------------------------------------------------

/// Every member beside the anchor is named, once: as one that is written or as
/// one that is not.
pub proof fn no_member_is_passed_over(
    members: Seq<TargetText>,
    calendar_id: Seq<char>,
    event_id: Seq<char>,
    i: int,
)
    requires
        0 <= i < members.len(),
        members[i].calendar_id != calendar_id || members[i].event_id != event_id,
    ensures
        members_that(members, calendar_id, event_id, members[i].writable).contains(members[i]),
        !members_that(members, calendar_id, event_id, !members[i].writable).contains(members[i]),
{
    lemma_members_there(members, calendar_id, event_id, i);
    lemma_members_that(members, calendar_id, event_id, !members[i].writable);
}

proof fn lemma_members_there(
    members: Seq<TargetText>,
    calendar_id: Seq<char>,
    event_id: Seq<char>,
    i: int,
)
    requires
        0 <= i < members.len(),
        members[i].calendar_id != calendar_id || members[i].event_id != event_id,
    ensures
        members_that(members, calendar_id, event_id, members[i].writable).contains(members[i]),
    decreases members.len(),
{
    let front = members.drop_last();
    let before = members_that(front, calendar_id, event_id, members[i].writable);
    let after = members_that(members, calendar_id, event_id, members[i].writable);
    if i == members.len() - 1 {
        assert(after[before.len() as int] == members[i]);
    } else {
        assert(front[i] == members[i]);
        lemma_members_there(front, calendar_id, event_id, i);
        let k = choose|k: int| 0 <= k < before.len() && before[k] == members[i];
        assert(after[k] == members[i]);
    }
}

proof fn lemma_members_that(
    members: Seq<TargetText>,
    calendar_id: Seq<char>,
    event_id: Seq<char>,
    writable: bool,
)
    ensures
        forall|k: int|
            0 <= k < members_that(members, calendar_id, event_id, writable).len()
                ==> (#[trigger] members_that(members, calendar_id, event_id, writable)[k]).writable
                == writable,
    decreases members.len(),
{
    if members.len() > 0 {
        lemma_members_that(members.drop_last(), calendar_id, event_id, writable);
        let before = members_that(members.drop_last(), calendar_id, event_id, writable);
        let after = members_that(members, calendar_id, event_id, writable);
        assert forall|k: int| 0 <= k < after.len() implies (#[trigger] after[k]).writable
            == writable by {
            if k < before.len() {
                assert(after[k] == before[k]);
            }
        }
    }
}

/// An edit that changed nothing is carried nowhere, and carrying nothing leaves
/// a member as it was.
pub proof fn nothing_changed_carries_nothing(same: FieldTexts, member: FieldTexts)
    ensures
        edited_among(carried_fields(), same, same) == Seq::<CarryField>::empty(),
        carried_onto(member, same, Seq::empty()) == member,
{
    lemma_nothing_edited(carried_fields(), same);
}

proof fn lemma_nothing_edited(fields: Seq<CarryField>, same: FieldTexts)
    ensures
        edited_among(fields, same, same) == Seq::<CarryField>::empty(),
    decreases fields.len(),
{
    if fields.len() > 0 {
        lemma_nothing_edited(fields.drop_last(), same);
    }
}

/// Carrying an edit twice is carrying it once.
pub proof fn carrying_twice_changes_nothing(
    member: FieldTexts,
    after: FieldTexts,
    changed: Seq<CarryField>,
)
    ensures
        carried_onto(carried_onto(member, after, changed), after, changed) == carried_onto(
            member,
            after,
            changed,
        ),
{
}

/// A whole number of days is itself, and a tie is rounded towards the future:
/// half a day back is no move, half a day ahead is a day.
pub proof fn ties_round_towards_the_future(days: int)
    ensures
        days_in(days * DAY_MS) == days,
        days_in(days * DAY_MS - DAY_MS / 2) == days,
        days_in(days * DAY_MS + DAY_MS / 2) == days + 1,
{
}

proof fn lemma_without_times(changed: Seq<CarryField>)
    ensures
        !without_times(changed).contains(CarryField::Start),
        !without_times(changed).contains(CarryField::End),
    decreases changed.len(),
{
    if changed.len() > 0 {
        lemma_without_times(changed.drop_last());
        let before = without_times(changed.drop_last());
        let after = without_times(changed);
        assert forall|k: int| 0 <= k < after.len() implies (#[trigger] after[k]) !is Start
            && after[k] !is End by {
            if k < before.len() {
                assert(after[k] == before[k]);
                assert(before.contains(before[k]));
            }
        }
    }
}

/// A row carried with all that follows never ends before it starts: its end is
/// derived from its own start.
pub proof fn a_carried_series_row_ends_after_it_starts(
    master: FieldTexts,
    anchor: Seq<char>,
    before: FieldTexts,
    after: FieldTexts,
    changed: Seq<CarryField>,
)
    requires
        future_carried(master, anchor, before, after, changed) is Some,
    ensures
        ({
            let row = future_carried(master, anchor, before, after, changed).unwrap();
            exists|start: int, length: int|
                length >= 0 && #[trigger] iso_at(start) == Some(row.start) && #[trigger] iso_at(
                    start + length,
                ) == Some(row.end)
        }),
{
    lemma_without_times(changed);
    let cut = millis_in(anchor).unwrap();
    let own = length_between(master.start, master.end, 0);
    let shift = moved_by(before, after, changed);
    let start = cut + if master.all_day {
        days_in(shift) * DAY_MS
    } else {
        shift
    };
    let length = if changed.contains(CarryField::End) && master.all_day == after.all_day {
        length_between(after.start, after.end, own)
    } else {
        own
    };
    assert(length >= 0);
    let row = future_carried(master, anchor, before, after, changed).unwrap();
    assert(iso_at(start) == Some(row.start));
    assert(iso_at(start + length) == Some(row.end));
}

// ---------------------------------------------------------------------------
// What travels
// ---------------------------------------------------------------------------

/// The place of a field in the order they travel in.
pub open spec fn carry_rank(field: CarryField) -> int {
    match field {
        CarryField::Title => 0,
        CarryField::Start => 1,
        CarryField::End => 2,
        CarryField::AllDay => 3,
        CarryField::Location => 4,
        CarryField::Description => 5,
    }
}

/// Two texts name one instant, or are the same text where not both name one.
pub open spec fn name_one_time(a: Seq<char>, b: Seq<char>) -> bool {
    if read_instant(a) is Some && read_instant(b) is Some {
        read_instant(a)->0.millis() == read_instant(b)->0.millis()
    } else {
        a == b
    }
}

/// Two optional texts are the same, an empty one being none.
pub open spec fn hold_the_same(a: Option<Seq<char>>, b: Option<Seq<char>>) -> bool {
    ||| a == b
    ||| (a is None || a->0.len() == 0) && (b is None || b->0.len() == 0)
}

/// An edit left a field as it was.
pub open spec fn is_left(field: CarryField, a: FieldTexts, b: FieldTexts) -> bool {
    match field {
        CarryField::Title => a.title == b.title,
        CarryField::Start => name_one_time(a.start, b.start),
        CarryField::End => name_one_time(a.end, b.end),
        CarryField::AllDay => a.all_day == b.all_day,
        CarryField::Location => hold_the_same(a.location, b.location),
        CarryField::Description => hold_the_same(a.description, b.description),
    }
}

pub open spec fn is_carry_ranked(fields: Seq<CarryField>) -> bool {
    forall|i: int, j: int|
        0 <= i < j < fields.len() ==> carry_rank(#[trigger] fields[i]) < carry_rank(
            #[trigger] fields[j],
        )
}

proof fn lemma_edited(
    fields: Seq<CarryField>,
    before: FieldTexts,
    after: FieldTexts,
    field: CarryField,
)
    requires
        is_carry_ranked(fields),
    ensures
        edited_among(fields, before, after).contains(field) <==> fields.contains(field) && edited(
            field,
            before,
            after,
        ),
        is_carry_ranked(edited_among(fields, before, after)),
        forall|i: int|
            0 <= i < edited_among(fields, before, after).len() ==> fields.contains(
                #[trigger] edited_among(fields, before, after)[i],
            ),
    decreases fields.len(),
{
    if fields.len() > 0 {
        let front = fields.drop_last();
        let last = fields.last();
        assert(fields[fields.len() - 1] == last);
        assert forall|i: int, j: int| 0 <= i < j < front.len() implies carry_rank(
            #[trigger] front[i],
        ) < carry_rank(#[trigger] front[j]) by {
            assert(front[i] == fields[i] && front[j] == fields[j]);
        }
        lemma_edited(front, before, after, field);
        let list = edited_among(front, before, after);
        assert forall|f: CarryField| #[trigger] front.contains(f) implies fields.contains(f)
            && carry_rank(f) < carry_rank(last) by {
            let k = choose|k: int| 0 <= k < front.len() && front[k] == f;
            assert(fields[k] == f);
        }
        if fields.contains(field) && field != last {
            let k = choose|k: int| 0 <= k < fields.len() && fields[k] == field;
            assert(front[k] == field);
        }
        let all = list.push(last);
        assert(all[list.len() as int] == last);
        if list.contains(field) {
            let k = choose|k: int| 0 <= k < list.len() && list[k] == field;
            assert(all[k] == field);
        }
        if all.contains(field) && field != last {
            let k = choose|k: int| 0 <= k < all.len() && all[k] == field;
            assert(list[k] == field);
        }
    }
}

/// A field travels exactly where the edit did not leave it as it was, and the
/// fields come in their order, each once.
pub proof fn a_field_travels_where_it_was_changed(
    before: FieldTexts,
    after: FieldTexts,
    field: CarryField,
)
    ensures
        edited_among(carried_fields(), before, after).contains(field) <==> !is_left(
            field,
            before,
            after,
        ),
        is_carry_ranked(edited_among(carried_fields(), before, after)),
{
    let all = carried_fields();
    assert(all[carry_rank(field)] == field);
    lemma_edited(all, before, after, field);
}

/// What is carried onto a member is the edit's in the fields that travel, and
/// the member's own in all others.
pub proof fn only_what_changed_is_taken_over(
    member: FieldTexts,
    after: FieldTexts,
    changed: Seq<CarryField>,
    field: CarryField,
)
    ensures
        changed.contains(field) ==> is_left(field, carried_onto(member, after, changed), after),
        !changed.contains(field) ==> is_left(field, carried_onto(member, after, changed), member),
        !changed.contains(CarryField::Start) ==> carried_onto(member, after, changed).start
            == member.start,
        !changed.contains(CarryField::End) ==> carried_onto(member, after, changed).end
            == member.end,
{
}

/// The members that are written are those beside the anchor that may be, the
/// ones left alone those that may not be; the anchor is in neither.
pub proof fn members_are_parted_by_whether_they_may_be_written(
    members: Seq<TargetText>,
    calendar_id: Seq<char>,
    event_id: Seq<char>,
    writable: bool,
    member: TargetText,
)
    ensures
        members_that(members, calendar_id, event_id, writable).contains(member)
            <==> members.contains(member) && member.writable == writable && !(member.calendar_id
            == calendar_id && member.event_id == event_id),
    decreases members.len(),
{
    if members.len() > 0 {
        let front = members.drop_last();
        let last = members.last();
        members_are_parted_by_whether_they_may_be_written(
            front,
            calendar_id,
            event_id,
            writable,
            member,
        );
        let list = members_that(front, calendar_id, event_id, writable);
        let all = members_that(members, calendar_id, event_id, writable);
        assert(members[members.len() - 1] == last);
        if front.contains(member) {
            let k = choose|k: int| 0 <= k < front.len() && front[k] == member;
            assert(members[k] == member);
        }
        if members.contains(member) && member != last {
            let k = choose|k: int| 0 <= k < members.len() && members[k] == member;
            assert(front[k] == member);
        }
        if list.contains(member) {
            let k = choose|k: int| 0 <= k < list.len() && list[k] == member;
            assert(all[k] == member);
        }
        if all.contains(member) && member != last {
            let k = choose|k: int| 0 <= k < all.len() && all[k] == member;
            assert(list[k] == member);
        }
        if all.len() > list.len() {
            assert(all[list.len() as int] == last);
        }
    }
}

/// A carried occurrence that was not moved stands at its own instant and lasts
/// as long as its series; one that was moved stands where the edit put it. It is
/// carried exactly where its instant can be read and its end can be written.
pub proof fn a_carried_occurrence_stays_unless_it_was_moved(
    master: FieldTexts,
    occurrence: Seq<char>,
    after: FieldTexts,
    changed: Seq<CarryField>,
)
    requires
        millis_in(master.start) is Some,
        millis_in(master.end) is Some,
        millis_in(master.start)->0 <= millis_in(master.end)->0,
    ensures
        ({
            let r = occurrence_carried(master, occurrence, after, changed);
            let length = millis_in(master.end)->0 - millis_in(master.start)->0;
            &&& r is Some <==> millis_in(occurrence) is Some && moment_at_millis(
                millis_in(occurrence)->0 + length,
            ).valid()
            &&& r is Some && !changed.contains(CarryField::Start) ==> r->0.start == occurrence
            &&& r is Some && changed.contains(CarryField::Start) ==> r->0.start == after.start
            &&& r is Some && !changed.contains(CarryField::End) ==> r->0.end == millis_text(
                moment_at_millis(millis_in(occurrence)->0 + length),
            )
            &&& r is Some && changed.contains(CarryField::End) ==> r->0.end == after.end
        }),
{
}

/// The row of "this and all following" starts as far from its cut as the edit
/// moved the start, an all-day one by the nearest whole number of days, and
/// lasts as long as its series did, or as the edit where that changed the end and
/// the two agree about being all-day.
pub proof fn a_carried_series_moves_as_far_as_the_edit(
    master: FieldTexts,
    anchor: Seq<char>,
    before: FieldTexts,
    after: FieldTexts,
    changed: Seq<CarryField>,
) -> (step: int)
    requires
        millis_in(anchor) is Some,
        millis_in(before.start) is Some,
        millis_in(after.start) is Some,
        millis_in(after.end) is Some,
        millis_in(master.start) is Some,
        millis_in(master.end) is Some,
        millis_in(master.start)->0 <= millis_in(master.end)->0,
        millis_in(after.start)->0 <= millis_in(after.end)->0,
    ensures
        changed.contains(CarryField::Start) ==> is_near(
            step,
            millis_in(after.start)->0 - millis_in(before.start)->0,
            master.all_day,
        ),
        !changed.contains(CarryField::Start) ==> step == 0,
        starts_and_lasts(
            future_carried(master, anchor, before, after, changed),
            millis_in(anchor)->0 + step,
            if changed.contains(CarryField::End) && master.all_day == after.all_day {
                millis_in(after.end)->0 - millis_in(after.start)->0
            } else {
                millis_in(master.end)->0 - millis_in(master.start)->0
            },
        ),
{
    let moved = moved_by(before, after, changed);
    let step = if master.all_day {
        days_in(moved) * DAY_MS
    } else {
        moved
    };
    lemma_without_times(changed);
    lemma_whole_days(moved);
    step
}

proof fn lemma_whole_days(moved: int)
    ensures
        is_near(days_in(moved) * DAY_MS, moved, true),
        days_in(0) == 0,
{
    let days = days_in(moved);
    assert(days * 86_400_000 == 86_400_000 * days);
}

/// A row is there where its start and its end can be written, and has them.
pub open spec fn starts_and_lasts(row: Option<FieldTexts>, start: int, lasts: int) -> bool {
    let from = moment_at_millis(start);
    let to = moment_at_millis(start + lasts);
    &&& row is Some <==> from.valid() && to.valid()
    &&& row is Some ==> row->0.start == millis_text(from) && row->0.end == millis_text(to)
}

/// A step is the move itself; of an all-day row, the whole number of days
/// nearest to it, a tie going to the later.
pub open spec fn is_near(step: int, moved: int, all_day: bool) -> bool {
    if all_day {
        step % DAY_MS as int == 0 && -(DAY_MS / 2) < step - moved <= DAY_MS / 2
    } else {
        step == moved
    }
}

} // verus!
