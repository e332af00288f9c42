//! Which fields an edit changed against a copy of the same event.
//!
//! An adapter that holds the provider's current copy can tell whether a save
//! would change anything there at all. A calendar server that mails the
//! invitees about every saved change to a meeting must not get a write that
//! changes nothing: a colour, a sound or a private reminder lives on this
//! device, and saving one would otherwise mail every guest.
//!
//! The comparison is exact apart from what the editors change on their own
//! and what no provider stores:
//!
//! - title, description and location compare as the editors save them:
//!   trimmed, with an empty text the same as none;
//! - reminders compare as a set of their kinds: the sound of a reminder and
//!   an app-start reminder live on this device only;
//! - invitees compare by address.

use vstd::prelude::*;

use crate::attendee::{invite_the_same, invites, same_invitees};
use crate::civil::{Instant, Moment};
use crate::reminder::{reminder_texts, KindText, Reminder, ReminderKind, ReminderText};
use crate::text::{
    copy_optional, copy_texts, optional_str, optional_text, same, same_optional, texts, trim,
    trimmed, Blank,
};
use crate::types::{moments, optional_event_rule, Event, EventRecurrence, EventRule, EventText};

verus! {

/// A field an edit can change and a provider stores.
#[derive(Debug, Clone, Copy, PartialEq, Eq, Structural)]
pub enum EventField {
    Title,
    Description,
    Location,
    Start,
    End,
    AllDay,
    Recurrence,
    Reminders,
    Attendees,
    ColorHex,
}

impl EventField {
    /// Every field, in [`changed_fields`] order.
    pub const ALL: [EventField; 10] = [
        EventField::Title,
        EventField::Description,
        EventField::Location,
        EventField::Start,
        EventField::End,
        EventField::AllDay,
        EventField::Recurrence,
        EventField::Reminders,
        EventField::Attendees,
        EventField::ColorHex,
    ];

    /// The name the refusal message carries.
    pub open spec fn name(self) -> Seq<char> {
        match self {
            EventField::Title => "title"@,
            EventField::Description => "description"@,
            EventField::Location => "location"@,
            EventField::Start => "start"@,
            EventField::End => "end"@,
            EventField::AllDay => "all-day"@,
            EventField::Recurrence => "recurrence"@,
            EventField::Reminders => "reminders"@,
            EventField::Attendees => "attendees"@,
            EventField::ColorHex => "color"@,
        }
    }

    /// The name the refusal message carries, so a surface can say which field
    /// was refused.
    pub fn token(self) -> (r: &'static str)
        ensures
            r@ == self.name(),
    {
        match self {
            EventField::Title => "title",
            EventField::Description => "description",
            EventField::Location => "location",
            EventField::Start => "start",
            EventField::End => "end",
            EventField::AllDay => "all-day",
            EventField::Recurrence => "recurrence",
            EventField::Reminders => "reminders",
            EventField::Attendees => "attendees",
            EventField::ColorHex => "color",
        }
    }

    /// The field a [`token`](Self::token) names; `None` for one this build
    /// does not know.
    pub fn from_token(token: &str) -> (r: Option<EventField>)
        ensures
            match r {
                Some(field) => field.name() == token@,
                None => forall|field: EventField| #[trigger] field.name() != token@,
            },
    {
        if same(token, "title") {
            Some(EventField::Title)
        } else if same(token, "description") {
            Some(EventField::Description)
        } else if same(token, "location") {
            Some(EventField::Location)
        } else if same(token, "start") {
            Some(EventField::Start)
        } else if same(token, "end") {
            Some(EventField::End)
        } else if same(token, "all-day") {
            Some(EventField::AllDay)
        } else if same(token, "recurrence") {
            Some(EventField::Recurrence)
        } else if same(token, "reminders") {
            Some(EventField::Reminders)
        } else if same(token, "attendees") {
            Some(EventField::Attendees)
        } else if same(token, "color") {
            Some(EventField::ColorHex)
        } else {
            None
        }
    }
}

/// Every field, in order.
pub open spec fn every_field() -> Seq<EventField> {
    seq![
        EventField::Title,
        EventField::Description,
        EventField::Location,
        EventField::Start,
        EventField::End,
        EventField::AllDay,
        EventField::Recurrence,
        EventField::Reminders,
        EventField::Attendees,
        EventField::ColorHex,
    ]
}

/// A text as the editors save it, with none the same as an empty one.
pub open spec fn saved_text(o: Option<Seq<char>>) -> Seq<char> {
    match o {
        Some(s) => trimmed(s, Blank::Ecma),
        None => Seq::empty(),
    }
}

/// The same exceptions, in any order and however often.
pub open spec fn same_moments(a: Seq<Moment>, b: Seq<Moment>) -> bool {
    forall|m: Moment| #[trigger] a.contains(m) <==> b.contains(m)
}

pub open spec fn same_rule(a: Option<EventRule>, b: Option<EventRule>) -> bool {
    match (a, b) {
        (None, None) => true,
        (Some(x), Some(y)) => x.rrule == y.rrule && x.tzid == y.tzid && same_moments(
            x.exceptions,
            y.exceptions,
        ),
        _ => false,
    }
}

/// The kinds of the reminders a provider stores.
pub open spec fn stored_kinds(list: Seq<ReminderText>) -> Seq<KindText>
    decreases list.len(),
{
    if list.len() == 0 {
        Seq::empty()
    } else if list.last().kind is AppStart {
        stored_kinds(list.drop_last())
    } else {
        stored_kinds(list.drop_last()).push(list.last().kind)
    }
}

/// The same stored reminders, in any order, each as often.
pub open spec fn same_stored(a: Seq<ReminderText>, b: Seq<ReminderText>) -> bool {
    stored_kinds(a).to_multiset() == stored_kinds(b).to_multiset()
}

/// Whether a field of an edit differs from a copy of the event.
pub open spec fn differs(field: EventField, edit: EventText, before: EventText) -> bool {
    match field {
        EventField::Title => saved_text(Some(edit.title)) != saved_text(Some(before.title)),
        EventField::Description => saved_text(edit.description) != saved_text(before.description),
        EventField::Location => saved_text(edit.location) != saved_text(before.location),
        EventField::Start => edit.start != before.start,
        EventField::End => edit.end != before.end,
        EventField::AllDay => edit.all_day != before.all_day,
        EventField::Recurrence => !same_rule(edit.recurrence, before.recurrence),
        EventField::Reminders => !same_stored(edit.reminders, before.reminders),
        EventField::Attendees => !invite_the_same(edit.attendees, before.attendees),
        EventField::ColorHex => edit.color_hex != before.color_hex,
    }
}

/// The fields of a list that differ, in its order.
pub open spec fn differing(
    fields: Seq<EventField>,
    edit: EventText,
    before: EventText,
) -> Seq<EventField>
    decreases fields.len(),
{
    if fields.len() == 0 {
        Seq::empty()
    } else {
        let front = differing(fields.drop_last(), edit, before);
        if differs(fields.last(), edit, before) {
            front.push(fields.last())
        } else {
            front
        }
    }
}

fn same_saved(a: Option<&str>, b: Option<&str>) -> (r: bool)
    ensures
        r == (saved_text(optional_str(a)) == saved_text(optional_str(b))),
{
    let x = match a {
        Some(s) => trim(s, Blank::Ecma),
        None => String::new(),
    };
    let y = match b {
        Some(s) => trim(s, Blank::Ecma),
        None => String::new(),
    };
    same(x.as_str(), y.as_str())
}

fn holds_instant(list: &[Instant], at: &Instant) -> (r: bool)
    ensures
        r == moments(list@).contains(at@),
{
    let ghost all = moments(list@);
    let mut i: usize = 0;
    while i < list.len()
        invariant
            i <= list.len(),
            all == moments(list@),
            forall|k: int| 0 <= k < i ==> all[k] != at@,
        decreases list.len() - i,
    {
        if list[i].same_instant(at) {
            assert(all[i as int] == at@);
            return true;
        }
        i = i + 1;
    }
    false
}

fn covers_instants(a: &[Instant], b: &[Instant]) -> (r: bool)
    ensures
        r == forall|m: Moment| #[trigger] moments(a@).contains(m) ==> moments(b@).contains(m),
{
    let ghost all = moments(a@);
    let mut i: usize = 0;
    while i < a.len()
        invariant
            i <= a.len(),
            all == moments(a@),
            forall|k: int| 0 <= k < i ==> moments(b@).contains(#[trigger] all[k]),
        decreases a.len() - i,
    {
        if !holds_instant(b, &a[i]) {
            assert(all.contains(all[i as int]));
            return false;
        }
        i = i + 1;
    }
    true
}

fn same_recurrence(a: &Option<EventRecurrence>, b: &Option<EventRecurrence>) -> (r: bool)
    ensures
        r == same_rule(optional_event_rule(*a), optional_event_rule(*b)),
{
    match (a, b) {
        (None, None) => true,
        (Some(x), Some(y)) => {
            let there = covers_instants(x.exceptions.as_slice(), y.exceptions.as_slice());
            let back = covers_instants(y.exceptions.as_slice(), x.exceptions.as_slice());
            assert((there && back) == same_moments(x@.exceptions, y@.exceptions));
            same(x.rrule.as_str(), y.rrule.as_str()) && same_optional(&x.tzid, &y.tzid) && there
                && back
        },
        _ => false,
    }
}

/// What a list of kinds means.
spec fn kind_texts(list: Seq<ReminderKind>) -> Seq<KindText> {
    Seq::new(list.len(), |i: int| list[i]@)
}

fn kinds_of(list: &[Reminder]) -> (r: Vec<ReminderKind>)
    ensures
        kind_texts(r@) == stored_kinds(reminder_texts(list@)),
{
    let ghost all = reminder_texts(list@);
    let mut out: Vec<ReminderKind> = Vec::new();
    let mut i: usize = 0;
    assert(kind_texts(out@) =~= Seq::empty());
    while i < list.len()
        invariant
            i <= list.len(),
            all == reminder_texts(list@),
            kind_texts(out@) == stored_kinds(all.take(i as int)),
        decreases list.len() - i,
    {
        assert(all.take(i as int + 1).drop_last() =~= all.take(i as int));
        assert(all.take(i as int + 1).last() == list@[i as int]@);
        if !list[i].kind.is_app_start() {
            let ghost before = kind_texts(out@);
            let kind = list[i].kind;
            out.push(kind);
            assert(kind_texts(out@) =~= before.push(kind@));
        }
        i = i + 1;
    }
    assert(all.take(i as int) =~= all);
    out
}

fn find_kind(list: &[ReminderKind], kind: &ReminderKind) -> (r: Option<usize>)
    ensures
        match r {
            Some(i) => i < list@.len() && list@[i as int]@ == kind@,
            None => !kind_texts(list@).contains(kind@),
        },
{
    let mut i: usize = 0;
    while i < list.len()
        invariant
            i <= list.len(),
            forall|k: int| 0 <= k < i ==> (#[trigger] list@[k])@ != kind@,
        decreases list.len() - i,
    {
        if list[i].same_kind(kind) {
            return Some(i);
        }
        i = i + 1;
    }
    None
}

fn same_reminders(a: &[Reminder], b: &[Reminder]) -> (r: bool)
    ensures
        r == same_stored(reminder_texts(a@), reminder_texts(b@)),
{
    broadcast use vstd::seq_lib::group_to_multiset_ensures;
    broadcast use vstd::multiset::group_multiset_axioms;

    let x = kinds_of(a);
    let mut left = kinds_of(b);
    let ghost wanted = kind_texts(x@);
    let ghost given = kind_texts(left@);
    assert(wanted.len() == x@.len());
    assert(given.len() == left@.len());
    if x.len() != left.len() {
        assert(wanted.to_multiset().len() != given.to_multiset().len());
        return false;
    }
    let mut i: usize = 0;
    assert(wanted.take(0) =~= Seq::empty());
    assert(wanted.take(0).to_multiset().add(given.to_multiset()) =~= given.to_multiset());
    while i < x.len()
        invariant
            i <= x.len(),
            wanted == kind_texts(x@),
            given == stored_kinds(reminder_texts(b@)),
            wanted == stored_kinds(reminder_texts(a@)),
            wanted.len() == given.len(),
            wanted.take(i as int).to_multiset().add(kind_texts(left@).to_multiset())
                == given.to_multiset(),
        decreases x.len() - i,
    {
        broadcast use vstd::seq_lib::group_to_multiset_ensures;
        broadcast use vstd::multiset::group_multiset_axioms;

        let kind = x[i];
        let ghost before = kind_texts(left@);
        assert(wanted.take(i as int + 1) =~= wanted.take(i as int).push(kind@));
        match find_kind(left.as_slice(), &kind) {
            Some(at) => {
                left.remove(at);
                assert(kind_texts(left@) =~= before.remove(at as int));
                assert(wanted.take(i as int + 1).to_multiset().add(kind_texts(left@).to_multiset())
                    =~= given.to_multiset());
            },
            None => {
                proof {
                    // One more of this kind is wanted than given.
                    lemma_prefix_count(wanted, i as int + 1, kind@);
                    assert(before.to_multiset().count(kind@) == 0);
                    assert(wanted.to_multiset().count(kind@) > given.to_multiset().count(kind@));
                }
                return false;
            },
        }
        i = i + 1;
    }
    proof {
        assert(wanted.take(i as int) =~= wanted);
        assert(given.to_multiset().len() == wanted.to_multiset().len() + kind_texts(
            left@,
        ).to_multiset().len());
        assert(kind_texts(left@) =~= Seq::empty());
        assert(wanted.to_multiset() =~= given.to_multiset());
    }
    true
}

/// The first items of a list hold no item more often than the list.
proof fn lemma_prefix_count(list: Seq<KindText>, n: int, kind: KindText)
    requires
        0 <= n <= list.len(),
    ensures
        list.take(n).to_multiset().count(kind) <= list.to_multiset().count(kind),
    decreases list.len(),
{
    broadcast use vstd::seq_lib::group_to_multiset_ensures;
    broadcast use vstd::multiset::group_multiset_axioms;

    if n < list.len() {
        lemma_prefix_count(list.drop_last(), n, kind);
        assert(list.drop_last().take(n) =~= list.take(n));
        assert(list.drop_last().push(list.last()) =~= list);
    } else {
        assert(list.take(n) =~= list);
    }
}

fn str_of(o: &Option<String>) -> (r: Option<&str>)
    ensures
        optional_str(r) == optional_text(*o),
{
    match o {
        Some(s) => Some(s.as_str()),
        None => None,
    }
}

fn field_differs(field: EventField, edit: &Event, before: &Event) -> (r: bool)
    ensures
        r == differs(field, edit@, before@),
{
    match field {
        EventField::Title => !same_saved(Some(edit.title.as_str()), Some(before.title.as_str())),
        EventField::Description => !same_saved(
            str_of(&edit.description),
            str_of(&before.description),
        ),
        EventField::Location => !same_saved(str_of(&edit.location), str_of(&before.location)),
        EventField::Start => !edit.start.same_instant(&before.start),
        EventField::End => !edit.end.same_instant(&before.end),
        EventField::AllDay => edit.all_day != before.all_day,
        EventField::Recurrence => !same_recurrence(&edit.recurrence, &before.recurrence),
        EventField::Reminders => !same_reminders(
            edit.reminders.as_slice(),
            before.reminders.as_slice(),
        ),
        EventField::Attendees => !same_invitees(
            edit.attendees.as_slice(),
            before.attendees.as_slice(),
        ),
        EventField::ColorHex => !same_optional(&edit.color_hex, &before.color_hex),
    }
}

/// The fields of `edit` that differ from `before`, in the order of
/// [`EventField`]. Empty when saving `edit` over `before` changes nothing a
/// provider stores. Host-local parts (colour label, sound) are not fields.
pub fn changed_fields(edit: &Event, before: &Event) -> (r: Vec<EventField>)
    ensures
        r@ == differing(every_field(), edit@, before@),
{
    let all = EventField::ALL;
    assert(all@ =~= every_field());
    let mut changed: Vec<EventField> = Vec::new();
    let mut i: usize = 0;
    while i < all.len()
        invariant
            i <= all@.len(),
            all@ == every_field(),
            changed@ == differing(all@.take(i as int), edit@, before@),
        decreases all@.len() - i,
    {
        assert(all@.take(i as int + 1).drop_last() =~= all@.take(i as int));
        let field = all[i];
        if field_differs(field, edit, before) {
            changed.push(field);
        }
        i = i + 1;
    }
    assert(all@.take(i as int) =~= all@);
    changed
}

/// The fields that count as kept: all of a list that did not change, but for
/// the invitees and the colour, which have rules of their own.
pub open spec fn unchanged(
    fields: Seq<EventField>,
    edit: EventText,
    opened: EventText,
) -> Seq<EventField>
    decreases fields.len(),
{
    if fields.len() == 0 {
        Seq::empty()
    } else {
        let front = unchanged(fields.drop_last(), edit, opened);
        if fields.last() is Attendees || fields.last() is ColorHex || differs(
            fields.last(),
            edit,
            opened,
        ) {
            front
        } else {
            front.push(fields.last())
        }
    }
}

/// Whether the opened copy is provably the one the edit was made from.
pub open spec fn is_the_copy(edit: EventText, opened: EventText, refreshed: bool) -> bool {
    refreshed && opened.etag is Some && opened.etag == edit.etag
}

/// The fields `edit` leaves exactly as the copy the editor opened has them:
/// what an adapter should leave as the PROVIDER has it, even where the
/// provider's value differs from this device's, because then the difference is
/// somebody else's change and not the user's.
///
/// `opened` counts only when it is provably the copy the edit was made from.
/// Its ETag must be known and equal the edit's, and `refreshed_since_last_write`
/// must hold: the caller's copy has been read from the provider again since
/// this app last wrote there. Without that proof nothing is kept, and the
/// adapter compares with the provider alone.
///
/// The invitees are never named: [`Event::keep_attendees`] carries their own
/// rule. Nor is the colour, which the host resolves.
pub fn kept_fields(
    edit: &Event,
    opened: Option<&Event>,
    refreshed_since_last_write: bool,
) -> (r: Vec<EventField>)
    ensures
        r@ == match opened {
            Some(copy) => if is_the_copy(edit@, copy@, refreshed_since_last_write) {
                unchanged(every_field(), edit@, copy@)
            } else {
                Seq::empty()
            },
            None => Seq::empty(),
        },
{
    let copy = match opened {
        Some(copy) => copy,
        None => {
            return Vec::new();
        },
    };
    if !refreshed_since_last_write || copy.etag.is_none() || !same_optional(
        &copy.etag,
        &edit.etag,
    ) {
        return Vec::new();
    }
    let all = EventField::ALL;
    assert(all@ =~= every_field());
    let mut kept: Vec<EventField> = Vec::new();
    let mut i: usize = 0;
    while i < all.len()
        invariant
            i <= all@.len(),
            all@ == every_field(),
            kept@ == unchanged(all@.take(i as int), edit@, copy@),
        decreases all@.len() - i,
    {
        assert(all@.take(i as int + 1).drop_last() =~= all@.take(i as int));
        let field = all[i];
        let ruled = match field {
            EventField::Attendees | EventField::ColorHex => true,
            _ => false,
        };
        if !ruled && !field_differs(field, edit, copy) {
            kept.push(field);
        }
        i = i + 1;
    }
    assert(all@.take(i as int) =~= all@);
    kept
}

/// The reminders that live on this device only, or the ones that do not.
pub open spec fn reminders_that(list: Seq<ReminderText>, local: bool) -> Seq<ReminderText>
    decreases list.len(),
{
    if list.len() == 0 {
        Seq::empty()
    } else {
        let front = reminders_that(list.drop_last(), local);
        if (list.last().kind is AppStart) == local {
            front.push(list.last())
        } else {
            front
        }
    }
}

/// An edit with the content it left alone taken from the provider.
pub open spec fn with_kept(edit: EventText, provider: EventText) -> EventText {
    EventText {
        title: if edit.keep_fields.contains(EventField::Title) {
            provider.title
        } else {
            edit.title
        },
        description: if edit.keep_fields.contains(EventField::Description) {
            provider.description
        } else {
            edit.description
        },
        location: if edit.keep_fields.contains(EventField::Location) {
            provider.location
        } else {
            edit.location
        },
        reminders: if edit.keep_fields.contains(EventField::Reminders) {
            reminders_that(provider.reminders, false) + reminders_that(edit.reminders, true)
        } else {
            edit.reminders
        },
        attendees: if edit.keep_attendees {
            provider.attendees
        } else {
            edit.attendees
        },
        ..edit
    }
}

fn names_field(fields: &[EventField], field: EventField) -> (r: bool)
    ensures
        r == fields@.contains(field),
{
    let mut i: usize = 0;
    while i < fields.len()
        invariant
            i <= fields.len(),
            forall|k: int| 0 <= k < i ==> fields@[k] != field,
        decreases fields.len() - i,
    {
        if fields[i] == field {
            return true;
        }
        i = i + 1;
    }
    false
}

fn push_reminders(out: &mut Vec<Reminder>, list: &[Reminder], local: bool)
    ensures
        reminder_texts(final(out)@) == reminder_texts(old(out)@) + reminders_that(
            reminder_texts(list@),
            local,
        ),
{
    let ghost all = reminder_texts(list@);
    let ghost start = reminder_texts(out@);
    let mut i: usize = 0;
    assert(start + reminders_that(all.take(0), local) =~= start);
    while i < list.len()
        invariant
            i <= list.len(),
            all == reminder_texts(list@),
            start == reminder_texts(old(out)@),
            reminder_texts(out@) == start + reminders_that(all.take(i as int), local),
        decreases list.len() - i,
    {
        assert(all.take(i as int + 1).drop_last() =~= all.take(i as int));
        assert(all.take(i as int + 1).last() == list@[i as int]@);
        if list[i].kind.is_app_start() == local {
            let ghost before = reminder_texts(out@);
            let ghost front = reminders_that(all.take(i as int), local);
            let reminder = list[i].copy();
            out.push(reminder);
            assert(reminder_texts(out@) =~= before.push(reminder@));
            assert(before.push(reminder@) =~= start + front.push(reminder@));
        }
        i = i + 1;
    }
    assert(all.take(i as int) =~= all);
}

/// `edit`, with the content it left alone taken from `provider`: the title,
/// description, location and reminders named in [`Event::keep_fields`], and
/// the invitees when [`Event::keep_attendees`] says the edit did not change
/// them.
///
/// For a write that CREATES what the edit describes rather than updating a
/// field at a time, so what the user did not touch is the provider's, not
/// whatever this device's copy said. The slot is always the edit's: it is one
/// fact, and a create exists to put it somewhere new. A reminder only this
/// device keeps (app start) stays with the edit, since the provider never had
/// it.
pub fn take_kept_content(edit: &Event, provider: &Event) -> (r: Event)
    ensures
        r@ == with_kept(edit@, provider@),
{
    let mut out = edit.copy();
    let fields = edit.keep_fields.as_slice();
    if names_field(fields, EventField::Title) {
        out.title = provider.title.clone();
    }
    if names_field(fields, EventField::Description) {
        out.description = copy_optional(&provider.description);
    }
    if names_field(fields, EventField::Location) {
        out.location = copy_optional(&provider.location);
    }
    if names_field(fields, EventField::Reminders) {
        let mut reminders: Vec<Reminder> = Vec::new();
        assert(reminder_texts(reminders@) =~= Seq::empty());
        push_reminders(&mut reminders, provider.reminders.as_slice(), false);
        push_reminders(&mut reminders, edit.reminders.as_slice(), true);
        assert(reminder_texts(reminders@) =~= reminders_that(provider@.reminders, false)
            + reminders_that(edit@.reminders, true));
        out.reminders = reminders;
    }
    if edit.keep_attendees {
        out.attendees = copy_texts(provider.attendees.as_slice());
    }
    out
}

/// The fields a list of tokens names, in order. Read leniently: a token that
/// names no field is dropped, the field counts as not kept, and it is written.
pub open spec fn fields_named(tokens: Seq<Seq<char>>) -> Seq<EventField>
    decreases tokens.len(),
{
    if tokens.len() == 0 {
        Seq::empty()
    } else {
        let front = fields_named(tokens.drop_last());
        if exists|field: EventField| #[trigger] field.name() == tokens.last() {
            front.push(choose|field: EventField| #[trigger] field.name() == tokens.last())
        } else {
            front
        }
    }
}

/// [`Event::keep_fields`] by name: each field by its [`EventField::token`].
pub fn field_tokens(fields: &[EventField]) -> (r: Vec<String>)
    ensures
        texts(r@) == fields@.map_values(|field: EventField| field.name()),
{
    let mut out: Vec<String> = Vec::new();
    let mut i: usize = 0;
    while i < fields.len()
        invariant
            i <= fields.len(),
            out@.len() == i,
            forall|k: int| 0 <= k < i ==> (#[trigger] out@[k])@ == fields@[k].name(),
        decreases fields.len() - i,
    {
        out.push(fields[i].token().to_owned());
        i = i + 1;
    }
    assert(texts(out@) =~= fields@.map_values(|field: EventField| field.name()));
    out
}

/// The fields a list of tokens names. Read leniently: a plugin built before a
/// field existed must not fail the whole update over a token it does not know.
pub fn fields_from_tokens(tokens: &[String]) -> (r: Vec<EventField>)
    ensures
        r@ == fields_named(texts(tokens@)),
{
    let ghost all = texts(tokens@);
    let mut out: Vec<EventField> = Vec::new();
    let mut i: usize = 0;
    while i < tokens.len()
        invariant
            i <= tokens.len(),
            all == texts(tokens@),
            out@ == fields_named(all.take(i as int)),
        decreases tokens.len() - i,
    {
        assert(all.take(i as int + 1).drop_last() =~= all.take(i as int));
        assert(all.take(i as int + 1).last() == tokens@[i as int]@);
        if let Some(field) = EventField::from_token(tokens[i].as_str()) {
            proof {
                let chosen = choose|f: EventField| #[trigger] f.name() == all[i as int];
                assert(field.name() == all[i as int]);
                a_token_names_one_field(chosen, field);
            }
            out.push(field);
        }
        i = i + 1;
    }
    assert(all.take(i as int) =~= all);
    out
}

// ---------------------------------------------------------------------------
// Laws
// ---------------------------------------------------------------------------

/// No two fields share a token.
pub proof fn a_token_names_one_field(a: EventField, b: EventField)
    requires
        a.name() == b.name(),
    ensures
        a == b,
{
    reveal_strlit("title");
    reveal_strlit("description");
    reveal_strlit("location");
    reveal_strlit("start");
    reveal_strlit("end");
    reveal_strlit("all-day");
    reveal_strlit("recurrence");
    reveal_strlit("reminders");
    reveal_strlit("attendees");
    reveal_strlit("color");
    assert("title"@.len() == 5 && "title"@[0] == 't');
    assert("description"@.len() == 11 && "description"@[0] == 'd');
    assert("location"@.len() == 8 && "location"@[0] == 'l');
    assert("start"@.len() == 5 && "start"@[0] == 's');
    assert("end"@.len() == 3 && "end"@[0] == 'e');
    assert("all-day"@.len() == 7 && "all-day"@[0] == 'a');
    assert("recurrence"@.len() == 10 && "recurrence"@[0] == 'r');
    assert("reminders"@.len() == 9 && "reminders"@[0] == 'r');
    assert("attendees"@.len() == 9 && "attendees"@[0] == 'a');
    assert("color"@.len() == 5 && "color"@[0] == 'c');
}

/// Fields written by name are read back as they were.
pub proof fn tokens_read_back(fields: Seq<EventField>)
    ensures
        fields_named(fields.map_values(|field: EventField| field.name())) == fields,
    decreases fields.len(),
{
    let names = fields.map_values(|field: EventField| field.name());
    if fields.len() > 0 {
        tokens_read_back(fields.drop_last());
        assert(names.drop_last() =~= fields.drop_last().map_values(
            |field: EventField| field.name(),
        ));
        assert(names.last() == fields.last().name());
        let chosen = choose|field: EventField| #[trigger] field.name() == names.last();
        a_token_names_one_field(chosen, fields.last());
        assert(fields.drop_last().push(fields.last()) =~= fields);
    } else {
        assert(names =~= Seq::empty());
    }
}

proof fn lemma_differing_none(fields: Seq<EventField>, edit: EventText, before: EventText)
    requires
        forall|i: int| 0 <= i < fields.len() ==> !differs(#[trigger] fields[i], edit, before),
    ensures
        differing(fields, edit, before) == Seq::<EventField>::empty(),
    decreases fields.len(),
{
    if fields.len() > 0 {
        let front = fields.drop_last();
        assert forall|i: int| 0 <= i < front.len() implies !differs(
            #[trigger] front[i],
            edit,
            before,
        ) by {
            assert(front[i] == fields[i]);
        }
        lemma_differing_none(front, edit, before);
        assert(fields.last() == fields[fields.len() - 1]);
    }
}

/// What lives on this device changes nothing: an edit that differs from its
/// copy only in the colour label, the sound, the sounds of its reminders and
/// its app-start reminders has no changed field.
pub proof fn what_lives_here_changes_nothing(edit: EventText, before: EventText)
    requires
        edit == (EventText {
            color_label: edit.color_label,
            sound: edit.sound,
            reminders: edit.reminders,
            ..before
        }),
        stored_kinds(edit.reminders) == stored_kinds(before.reminders),
    ensures
        differing(every_field(), edit, before) == Seq::<EventField>::empty(),
{
    assert forall|i: int| 0 <= i < every_field().len() implies !differs(
        #[trigger] every_field()[i],
        edit,
        before,
    ) by {}
    lemma_differing_none(every_field(), edit, before);
}

// ---------------------------------------------------------------------------
// What a change is
// ---------------------------------------------------------------------------

/// The place of a field in the order they are named in.
pub open spec fn rank(field: EventField) -> int {
    match field {
        EventField::Title => 0,
        EventField::Description => 1,
        EventField::Location => 2,
        EventField::Start => 3,
        EventField::End => 4,
        EventField::AllDay => 5,
        EventField::Recurrence => 6,
        EventField::Reminders => 7,
        EventField::Attendees => 8,
        EventField::ColorHex => 9,
    }
}

/// Two texts say the same but for the white space round them; none says nothing.
pub open spec fn say_the_same(a: Option<Seq<char>>, b: Option<Seq<char>>) -> bool {
    let x = match a {
        Some(s) => trimmed(s, Blank::Ecma),
        None => Seq::empty(),
    };
    let y = match b {
        Some(s) => trimmed(s, Blank::Ecma),
        None => Seq::empty(),
    };
    x == y
}

/// How many of the first `n` reminders are of a kind.
pub open spec fn of_kind(list: Seq<ReminderText>, kind: KindText, n: int) -> nat
    decreases n,
{
    if n <= 0 {
        0
    } else {
        of_kind(list, kind, n - 1) + if list[n - 1].kind == kind {
            1nat
        } else {
            0nat
        }
    }
}

/// A field is the same in both, as far as a provider stores it.
pub open spec fn is_kept_by(field: EventField, a: EventText, b: EventText) -> bool {
    match field {
        EventField::Title => say_the_same(Some(a.title), Some(b.title)),
        EventField::Description => say_the_same(a.description, b.description),
        EventField::Location => say_the_same(a.location, b.location),
        EventField::Start => a.start == b.start,
        EventField::End => a.end == b.end,
        EventField::AllDay => a.all_day == b.all_day,
        EventField::Recurrence => match (a.recurrence, b.recurrence) {
            (None, None) => true,
            (Some(x), Some(y)) => {
                &&& x.rrule == y.rrule
                &&& x.tzid == y.tzid
                &&& forall|m: Moment| #[trigger]
                    x.exceptions.contains(m) <==> y.exceptions.contains(m)
            },
            _ => false,
        },
        EventField::Reminders => forall|kind: KindText|
            !(kind is AppStart) ==> #[trigger] of_kind(
                a.reminders,
                kind,
                a.reminders.len() as int,
            ) == of_kind(b.reminders, kind, b.reminders.len() as int),
        EventField::Attendees => forall|key: Seq<char>| #[trigger]
            invites(a.attendees, key) <==> invites(b.attendees, key),
        EventField::ColorHex => a.color_hex == b.color_hex,
    }
}

proof fn lemma_stored_count(list: Seq<ReminderText>, kind: KindText, n: int)
    requires
        0 <= n <= list.len(),
    ensures
        stored_kinds(list.take(n)).to_multiset().count(kind) == if kind is AppStart {
            0
        } else {
            of_kind(list, kind, n)
        },
    decreases n,
{
    broadcast use vstd::seq_lib::group_to_multiset_ensures;

    if n > 0 {
        let front = list.take(n - 1);
        lemma_stored_count(list, kind, n - 1);
        assert(list.take(n).drop_last() =~= front);
        assert(list.take(n).last() == list[n - 1]);
        let before = stored_kinds(front);
        if !(list[n - 1].kind is AppStart) {
            assert(stored_kinds(list.take(n)) == before.push(list[n - 1].kind));
            assert(before.push(list[n - 1].kind).to_multiset() == before.to_multiset().insert(
                list[n - 1].kind,
            ));
        }
    } else {
        assert(list.take(0) =~= Seq::empty());
        assert(stored_kinds(list.take(0)) =~= Seq::empty());
    }
}

proof fn lemma_same_reminders(a: Seq<ReminderText>, b: Seq<ReminderText>)
    ensures
        same_stored(a, b) <==> forall|kind: KindText|
            !(kind is AppStart) ==> #[trigger] of_kind(a, kind, a.len() as int) == of_kind(
                b,
                kind,
                b.len() as int,
            ),
{
    assert(a.take(a.len() as int) =~= a);
    assert(b.take(b.len() as int) =~= b);
    if same_stored(a, b) {
        assert forall|kind: KindText| !(kind is AppStart) implies #[trigger] of_kind(
            a,
            kind,
            a.len() as int,
        ) == of_kind(b, kind, b.len() as int) by {
            lemma_stored_count(a, kind, a.len() as int);
            lemma_stored_count(b, kind, b.len() as int);
        }
    }
    if forall|kind: KindText|
        !(kind is AppStart) ==> #[trigger] of_kind(a, kind, a.len() as int) == of_kind(
            b,
            kind,
            b.len() as int,
        ) {
        assert forall|kind: KindText| #[trigger]
            stored_kinds(a).to_multiset().count(kind) == stored_kinds(b).to_multiset().count(
                kind,
            ) by {
            lemma_stored_count(a, kind, a.len() as int);
            lemma_stored_count(b, kind, b.len() as int);
            assert(!(kind is AppStart) ==> of_kind(a, kind, a.len() as int) == of_kind(
                b,
                kind,
                b.len() as int,
            ));
        }
        assert(stored_kinds(a).to_multiset() =~= stored_kinds(b).to_multiset());
    }
}

proof fn lemma_differs(field: EventField, a: EventText, b: EventText)
    ensures
        differs(field, a, b) <==> !is_kept_by(field, a, b),
{
    lemma_same_reminders(a.reminders, b.reminders);
}

/// Fields in their order, each once.
pub open spec fn is_ranked(fields: Seq<EventField>) -> bool {
    forall|i: int, j: int|
        0 <= i < j < fields.len() ==> rank(#[trigger] fields[i]) < rank(#[trigger] fields[j])
}

proof fn lemma_differing(
    fields: Seq<EventField>,
    edit: EventText,
    before: EventText,
    field: EventField,
)
    requires
        is_ranked(fields),
    ensures
        differing(fields, edit, before).contains(field) <==> fields.contains(field) && differs(
            field,
            edit,
            before,
        ),
        unchanged(fields, edit, before).contains(field) <==> fields.contains(field) && !(field
            is Attendees) && !(field is ColorHex) && !differs(field, edit, before),
        is_ranked(differing(fields, edit, before)),
        is_ranked(unchanged(fields, edit, before)),
        forall|i: int|
            0 <= i < differing(fields, edit, before).len() ==> fields.contains(
                #[trigger] differing(fields, edit, before)[i],
            ),
        forall|i: int|
            0 <= i < unchanged(fields, edit, before).len() ==> fields.contains(
                #[trigger] unchanged(fields, edit, before)[i],
            ),
    decreases fields.len(),
{
    if fields.len() > 0 {
        let front = fields.drop_last();
        let last = fields.last();
        assert(fields[fields.len() - 1] == last);
        assert forall|i: int, j: int| 0 <= i < j < front.len() implies rank(#[trigger] front[i])
            < rank(#[trigger] front[j]) by {
            assert(front[i] == fields[i] && front[j] == fields[j]);
        }
        lemma_differing(front, edit, before, field);
        assert(fields =~= front.push(last));
        assert forall|f: EventField| #[trigger] front.contains(f) implies fields.contains(f)
            && rank(f) < rank(last) by {
            let k = choose|k: int| 0 <= k < front.len() && front[k] == f;
            assert(fields[k] == f);
        }
        if fields.contains(field) && field != last {
            let k = choose|k: int| 0 <= k < fields.len() && fields[k] == field;
            assert(front[k] == field);
        }
        lemma_pushed_field(differing(front, edit, before), last, field);
        lemma_pushed_field(unchanged(front, edit, before), last, field);
    }
}

proof fn lemma_pushed_field(list: Seq<EventField>, last: EventField, field: EventField)
    ensures
        list.push(last).contains(field) <==> list.contains(field) || field == last,
{
    let all = list.push(last);
    if list.contains(field) {
        let k = choose|k: int| 0 <= k < list.len() && list[k] == field;
        assert(all[k] == field);
    }
    assert(all[list.len() as int] == last);
    if all.contains(field) && field != last {
        let k = choose|k: int| 0 <= k < all.len() && all[k] == field;
        assert(list[k] == field);
    }
}

proof fn lemma_every_field(field: EventField)
    ensures
        every_field().contains(field),
        is_ranked(every_field()),
{
    let all = every_field();
    assert(all[rank(field)] == field);
}

/// A field is named as changed exactly where a provider would store something
/// else for it, and the fields come in their order, each once.
pub proof fn a_field_is_changed_where_it_is_not_kept(
    edit: EventText,
    before: EventText,
    field: EventField,
)
    ensures
        differing(every_field(), edit, before).contains(field) <==> !is_kept_by(
            field,
            edit,
            before,
        ),
        is_ranked(differing(every_field(), edit, before)),
{
    lemma_every_field(field);
    lemma_differing(every_field(), edit, before, field);
    lemma_differs(field, edit, before);
}

/// It does not matter which of two copies is the edit.
pub proof fn a_change_goes_both_ways(a: EventText, b: EventText, field: EventField)
    ensures
        differing(every_field(), a, b).contains(field) <==> differing(
            every_field(),
            b,
            a,
        ).contains(field),
{
    a_field_is_changed_where_it_is_not_kept(a, b, field);
    a_field_is_changed_where_it_is_not_kept(b, a, field);
    if field is Reminders {
        lemma_same_reminders(a.reminders, b.reminders);
        lemma_same_reminders(b.reminders, a.reminders);
    }
}

/// Of the fields an edit left alone, all count as kept but the invitees and the
/// colour, in their order.
pub proof fn what_is_kept_was_left_alone(edit: EventText, opened: EventText, field: EventField)
    ensures
        unchanged(every_field(), edit, opened).contains(field) <==> !(field is Attendees) && !(
        field is ColorHex) && is_kept_by(field, edit, opened),
        is_ranked(unchanged(every_field(), edit, opened)),
{
    lemma_every_field(field);
    lemma_differing(every_field(), edit, opened, field);
    lemma_differs(field, edit, opened);
}

proof fn lemma_reminders_that(list: Seq<ReminderText>, local: bool, kind: KindText)
    ensures
        ({
            let r = reminders_that(list, local);
            of_kind(r, kind, r.len() as int) == if (kind is AppStart) == local {
                of_kind(list, kind, list.len() as int)
            } else {
                0
            }
        }),
    decreases list.len(),
{
    let r = reminders_that(list, local);
    if list.len() > 0 {
        let front = list.drop_last();
        let before = reminders_that(front, local);
        lemma_reminders_that(front, local, kind);
        lemma_of_kind_front(list, front, kind, front.len() as int);
        if (list.last().kind is AppStart) == local {
            lemma_of_kind_front(r, before, kind, before.len() as int);
            assert(r[before.len() as int] == list.last());
        }
    }
}

proof fn lemma_of_kind_front(
    list: Seq<ReminderText>,
    front: Seq<ReminderText>,
    kind: KindText,
    n: int,
)
    requires
        0 <= n <= front.len() <= list.len(),
        forall|i: int| 0 <= i < front.len() ==> #[trigger] list[i] == front[i],
    ensures
        of_kind(list, kind, n) == of_kind(front, kind, n),
    decreases n,
{
    if n > 0 {
        lemma_of_kind_front(list, front, kind, n - 1);
        assert(list[n - 1] == front[n - 1]);
    }
}

proof fn lemma_of_kind_added(a: Seq<ReminderText>, b: Seq<ReminderText>, kind: KindText, n: int)
    requires
        0 <= n <= b.len(),
    ensures
        of_kind(a + b, kind, a.len() + n) == of_kind(a, kind, a.len() as int) + of_kind(
            b,
            kind,
            n,
        ),
    decreases n,
{
    if n > 0 {
        lemma_of_kind_added(a, b, kind, n - 1);
        assert((a + b)[a.len() + n - 1] == b[n - 1]);
    } else {
        lemma_of_kind_front(a + b, a, kind, a.len() as int);
    }
}

/// What an edit keeps is the provider's, and what it does not keep is its own.
/// The slot, the rule and the colour are always its own, and so are the
/// reminders that only this device keeps.
pub proof fn kept_content_is_the_providers(
    edit: EventText,
    provider: EventText,
    field: EventField,
)
    ensures
        ({
            let r = with_kept(edit, provider);
            let may_keep = field is Title || field is Description || field is Location || field
                is Reminders;
            &&& may_keep && edit.keep_fields.contains(field) ==> is_kept_by(field, r, provider)
            &&& may_keep && !edit.keep_fields.contains(field) ==> is_kept_by(field, r, edit)
            &&& field is Attendees ==> is_kept_by(
                field,
                r,
                if edit.keep_attendees {
                    provider
                } else {
                    edit
                },
            )
            &&& !may_keep && !(field is Attendees) ==> is_kept_by(field, r, edit)
            &&& of_kind(r.reminders, KindText::AppStart, r.reminders.len() as int) == of_kind(
                edit.reminders,
                KindText::AppStart,
                edit.reminders.len() as int,
            )
        }),
{
    let r = with_kept(edit, provider);
    if edit.keep_fields.contains(EventField::Reminders) {
        let theirs = reminders_that(provider.reminders, false);
        let ours = reminders_that(edit.reminders, true);
        assert forall|kind: KindText| #[trigger]
            of_kind(r.reminders, kind, r.reminders.len() as int) == if kind is AppStart {
                of_kind(edit.reminders, kind, edit.reminders.len() as int)
            } else {
                of_kind(provider.reminders, kind, provider.reminders.len() as int)
            } by {
            lemma_reminders_that(provider.reminders, false, kind);
            lemma_reminders_that(edit.reminders, true, kind);
            lemma_of_kind_added(theirs, ours, kind, ours.len() as int);
        }
    }
}

} // verus!
