//! Shared parsing for the attendee strings the UI collects.
//!
//! Attendees are a flat list of texts where each entry is either
//! `"Display Name <email@host>"` (the form the contact picker emits) or a bare
//! `"email@host"` (free-form entry). Every calendar adapter has to turn that
//! into its own wire shape; the split lives here, once.
//!
//! # The organizer is never an invitee
//!
//! Providers list the organizer among the attendees. Read as an invitee, an
//! appointment the user made alone looked like a meeting. So:
//!
//! - On read, [`people_from_read`] drops the organizer's row from both the
//!   editable list and the responses. Each adapter hands it the provider's
//!   explicit per-row flag; without one, an exact match of the normalised
//!   address with the organizer counts. An unknown organizer drops nothing.
//! - Only an event the connected account organizes may notify anyone. The
//!   adapter says whether it does, from the provider's own statement.
//! - On write, [`guard_update`] and [`guard_create`] keep the organizer out of
//!   what goes to the provider, clear a send intent nobody may act on, and
//!   tell the adapter to leave the provider's list alone when the edit did not
//!   change it.

use vstd::prelude::*;

use crate::text::{
    ascii_lower, chars_of, copy_optional, find_char, first_index, last_index, lemma_first_index,
    lemma_last_index, lemma_texts_push, lemma_trimmed_same, lowercase, lowercased, optional_str,
    optional_text, rfind_char, same, string_of, texts, to_lowercase, trim, trimmed, trimmed_back,
    trimmed_front, Blank,
};
use crate::types::{
    response_texts, AttendeeResponse, AttendeeStatus, Event, EventText, NewEvent, NewEventText,
    ResponseText,
};

verus! {

/// A text without a leading `mailto:` in any case.
pub open spec fn without_scheme(s: Seq<char>) -> Seq<char> {
    if s.len() >= 7 && lowercase(s.take(7)) == "mailto:"@ {
        s.skip(7)
    } else {
        s
    }
}

/// The one spelling comparisons of addresses use.
pub open spec fn address_key(address: Seq<char>) -> Seq<char> {
    lowercased(trimmed(without_scheme(trimmed(address, Blank::Unicode)), Blank::Unicode))
}

/// An address in the one spelling comparisons use: trimmed, without a
/// leading `mailto:` in any case, and lower-cased.
pub fn normalize_address(address: &str) -> (r: String)
    ensures
        r@ == address_key(address@),
{
    let whole = trim(address, Blank::Unicode);
    let chars = chars_of(whole.as_str());
    if chars.len() >= 7 {
        let head = string_of(&chars[0..7]);
        assert(head@ =~= whole@.take(7));
        if same(ascii_lower(head.as_str()).as_str(), "mailto:") {
            let bare = string_of(&chars[7..chars.len()]);
            assert(bare@ =~= whole@.skip(7));
            return to_lowercase(trim(bare.as_str(), Blank::Unicode).as_str());
        }
    }
    to_lowercase(trim(whole.as_str(), Blank::Unicode).as_str())
}

/// The editable form of one attendee.
pub open spec fn formatted(name: Option<Seq<char>>, email: Seq<char>) -> Seq<char> {
    match name {
        Some(n) => {
            let shown = trimmed(n, Blank::Unicode);
            if shown.len() > 0 && shown != email {
                shown + " <"@ + email + ">"@
            } else {
                email
            }
        },
        None => email,
    }
}

/// The editable form of one attendee: `"Name <email>"` when the trimmed name
/// says something the address does not, otherwise the bare address. The
/// inverse of [`parse`].
pub fn format(name: Option<&str>, email: &str) -> (r: String)
    ensures
        r@ == formatted(optional_str(name), email@),
{
    match name {
        Some(n) => {
            let mut shown = trim(n, Blank::Unicode);
            if shown.as_str().is_empty() || same(shown.as_str(), email) {
                return email.to_owned();
            }
            shown.append(" <");
            shown.append(email);
            shown.append(">");
            shown
        },
        None => email.to_owned(),
    }
}

/// The name and the address an entry gives.
pub open spec fn parsed(entry: Seq<char>) -> (Option<Seq<char>>, Seq<char>) {
    let whole = trimmed(entry, Blank::Unicode);
    match last_index(whole, '<') {
        Some(open) => match first_index(whole.skip(open + 1), '>') {
            Some(close) => {
                let email = trimmed(
                    whole.subrange(open + 1, open + 1 + close),
                    Blank::Unicode,
                );
                let name = trimmed(
                    trimmed(trimmed(whole.take(open), Blank::Unicode), Blank::Quote),
                    Blank::Unicode,
                );
                if email.len() == 0 {
                    (None, whole)
                } else if name.len() == 0 {
                    (None, email)
                } else {
                    (Some(name), email)
                }
            },
            None => (None, whole),
        },
        None => (None, whole),
    }
}

/// Split an attendee entry into an optional display name and an email.
///
/// Recognises `"Display Name <email@host>"` (the inner address is taken
/// verbatim, the leading text becomes the trimmed, dequoted name) and bare
/// `"email@host"` (yields no name and the entry). A bracketed form with an
/// empty address falls back to treating the whole entry as the address. No
/// validation beyond the bracket split.
pub fn parse(entry: &str) -> (r: (Option<String>, String))
    ensures
        (optional_text(r.0), r.1@) == parsed(entry@),
{
    let whole = trim(entry, Blank::Unicode);
    let chars = chars_of(whole.as_str());
    if let Some(open) = rfind_char(chars.as_slice(), '<') {
        proof {
            lemma_last_index(whole@, '<');
        }
        let rest = &chars[open + 1..chars.len()];
        assert(rest@ =~= whole@.skip(open + 1));
        if let Some(close) = find_char(rest, '>') {
            proof {
                lemma_first_index(rest@, '>');
            }
            let inner = string_of(&rest[0..close]);
            assert(inner@ =~= whole@.subrange(open + 1, open + 1 + close));
            let email = trim(inner.as_str(), Blank::Unicode);
            if !email.as_str().is_empty() {
                let front = string_of(&chars[0..open]);
                assert(front@ =~= whole@.take(open as int));
                let shown = trim(front.as_str(), Blank::Unicode);
                let name = trim(trim(shown.as_str(), Blank::Quote).as_str(), Blank::Unicode);
                if name.as_str().is_empty() {
                    return (None, email);
                }
                return (Some(name), email);
            }
        }
    }
    (None, whole)
}

/// One attendee row as a provider reports it, in core terms.
#[derive(Debug, Clone, PartialEq, Eq)]
pub struct ReadAttendee {
    pub email: String,
    pub name: Option<String>,
    pub status: AttendeeStatus,
    /// The provider marks this row as the organizer's own.
    pub is_organizer: bool,
}

/// What a [`ReadAttendee`] holds.
pub struct ReadText {
    pub email: Seq<char>,
    pub name: Option<Seq<char>>,
    pub status: AttendeeStatus,
    pub is_organizer: bool,
}

impl View for ReadAttendee {
    type V = ReadText;

    open spec fn view(&self) -> ReadText {
        ReadText {
            email: self.email@,
            name: optional_text(self.name),
            status: self.status,
            is_organizer: self.is_organizer,
        }
    }
}

/// Who an event involves, as the rules above read it.
#[derive(Debug, Clone, PartialEq, Eq)]
pub struct EventPeople {
    pub organizer: Option<String>,
    /// The invitees, in the editable form: never the organizer.
    pub attendees: Vec<String>,
    /// The invitees' responses, in the same order: never the organizer's.
    pub attendee_responses: Vec<AttendeeResponse>,
    /// Someone other than the connected account organizes the event, or an
    /// organizer is named and the provider does not say it is the account
    /// (see [`organized_elsewhere`]).
    pub organized_elsewhere: bool,
}

impl Default for EventPeople {
    fn default() -> (r: EventPeople)
        ensures
            r.organizer is None,
            r.attendees@.len() == 0,
            r.attendee_responses@.len() == 0,
            !r.organized_elsewhere,
    {
        EventPeople {
            organizer: None,
            attendees: Vec::new(),
            attendee_responses: Vec::new(),
            organized_elsewhere: false,
        }
    }
}

/// What [`EventPeople`] hold.
#[verifier::ext_equal]
pub struct PeopleText {
    pub organizer: Option<Seq<char>>,
    pub attendees: Seq<Seq<char>>,
    pub attendee_responses: Seq<ResponseText>,
    pub organized_elsewhere: bool,
}

impl View for EventPeople {
    type V = PeopleText;

    open spec fn view(&self) -> PeopleText {
        PeopleText {
            organizer: optional_text(self.organizer),
            attendees: texts(self.attendees@),
            attendee_responses: response_texts(self.attendee_responses@),
            organized_elsewhere: self.organized_elsewhere,
        }
    }
}

/// A text with something in it beside white space.
pub open spec fn says_something(s: Seq<char>) -> bool {
    trimmed(s, Blank::Unicode).len() > 0
}

/// Whether someone else organizes an event.
pub open spec fn elsewhere(organizer: Option<Seq<char>>, organized_by_me: Option<bool>) -> bool {
    match organized_by_me {
        Some(mine) => !mine,
        None => match organizer {
            Some(o) => says_something(o),
            None => false,
        },
    }
}

/// Whether someone other than the connected account organizes an event.
///
/// The provider's answer counts first: `Some(true)` is the account's own,
/// `Some(false)` is someone else's, even when the provider names no organizer
/// address. Without an answer, an event with an organizer counts as organized
/// elsewhere, because only the organizer may notify anyone and an unconfirmed
/// claim notifies nobody; an event with no organizer is the account's own (a
/// plain appointment).
pub fn organized_elsewhere(organizer: Option<&str>, organized_by_me: Option<bool>) -> (r: bool)
    ensures
        r == elsewhere(optional_str(organizer), organized_by_me),
{
    match organized_by_me {
        Some(mine) => !mine,
        None => match organizer {
            Some(o) => !trim(o, Blank::Unicode).as_str().is_empty(),
            None => false,
        },
    }
}

/// The rows with an address.
pub open spec fn addressed(rows: Seq<ReadAttendee>) -> Seq<ReadText>
    decreases rows.len(),
{
    if rows.len() == 0 {
        Seq::empty()
    } else if says_something(rows.last().email@) {
        addressed(rows.drop_last()).push(rows.last()@)
    } else {
        addressed(rows.drop_last())
    }
}

/// The addresses of the rows the provider flags as the organizer's.
pub open spec fn flagged(rows: Seq<ReadText>) -> Seq<Seq<char>>
    decreases rows.len(),
{
    if rows.len() == 0 {
        Seq::empty()
    } else if rows.last().is_organizer {
        flagged(rows.drop_last()).push(rows.last().email)
    } else {
        flagged(rows.drop_last())
    }
}

/// The organizer: whom the provider names, else the one row it flags.
pub open spec fn organizer_among(organizer: Option<Seq<char>>, rows: Seq<ReadText>) -> Option<
    Seq<char>,
> {
    match organizer {
        Some(o) if says_something(o) => Some(o),
        _ => if flagged(rows).len() == 1 {
            Some(flagged(rows)[0])
        } else {
            None
        },
    }
}

/// Whether a row is the organizer's.
pub open spec fn is_the_organizers(row: ReadText, organizer: Option<Seq<char>>) -> bool {
    row.is_organizer || match organizer {
        Some(o) => address_key(o) == address_key(row.email),
        None => false,
    }
}

/// The name of a row, where it says something.
pub open spec fn shown_name(name: Option<Seq<char>>) -> Option<Seq<char>> {
    match name {
        Some(n) if says_something(n) => Some(n),
        _ => None,
    }
}

/// The invitees among rows, in the editable form.
pub open spec fn invited(rows: Seq<ReadText>, organizer: Option<Seq<char>>) -> Seq<Seq<char>>
    decreases rows.len(),
{
    if rows.len() == 0 {
        Seq::empty()
    } else {
        let before = invited(rows.drop_last(), organizer);
        if is_the_organizers(rows.last(), organizer) {
            before
        } else {
            before.push(formatted(shown_name(rows.last().name), rows.last().email))
        }
    }
}

/// The invitees' responses among rows.
pub open spec fn responses(rows: Seq<ReadText>, organizer: Option<Seq<char>>) -> Seq<ResponseText>
    decreases rows.len(),
{
    if rows.len() == 0 {
        Seq::empty()
    } else {
        let before = responses(rows.drop_last(), organizer);
        if is_the_organizers(rows.last(), organizer) {
            before
        } else {
            before.push(
                ResponseText {
                    email: rows.last().email,
                    name: shown_name(rows.last().name),
                    status: rows.last().status,
                },
            )
        }
    }
}

/// The event's people by what was read.
pub open spec fn people_in(
    organizer: Option<Seq<char>>,
    organized_by_me: Option<bool>,
    rows: Seq<ReadAttendee>,
) -> PeopleText {
    let kept = addressed(rows);
    let who = organizer_among(organizer, kept);
    PeopleText {
        organizer: who,
        attendees: invited(kept, who),
        attendee_responses: responses(kept, who),
        organized_elsewhere: elsewhere(who, organized_by_me),
    }
}

fn has_something(s: &str) -> (r: bool)
    ensures
        r == says_something(s@),
{
    !trim(s, Blank::Unicode).as_str().is_empty()
}

fn as_text(o: &Option<String>) -> (r: Option<&str>)
    ensures
        optional_str(r) == optional_text(*o),
{
    match o {
        Some(s) => Some(s.as_str()),
        None => None,
    }
}

/// What a list of read rows holds.
spec fn read_texts(rows: Seq<ReadAttendee>) -> Seq<ReadText> {
    Seq::new(rows.len(), |i: int| rows[i]@)
}

fn keep_addressed(rows: &[ReadAttendee]) -> (r: Vec<ReadAttendee>)
    ensures
        read_texts(r@) == addressed(rows@),
{
    let mut kept: Vec<ReadAttendee> = Vec::new();
    let mut i: usize = 0;
    assert(read_texts(kept@) =~= Seq::empty());
    while i < rows.len()
        invariant
            i <= rows.len(),
            read_texts(kept@) == addressed(rows@.take(i as int)),
        decreases rows.len() - i,
    {
        assert(rows@.take(i as int + 1).drop_last() =~= rows@.take(i as int));
        if has_something(rows[i].email.as_str()) {
            let ghost before = read_texts(kept@);
            let row = ReadAttendee {
                email: rows[i].email.clone(),
                name: copy_optional(&rows[i].name),
                status: rows[i].status,
                is_organizer: rows[i].is_organizer,
            };
            kept.push(row);
            assert(read_texts(kept@) =~= before.push(row@));
        }
        i = i + 1;
    }
    assert(rows@.take(i as int) =~= rows@);
    kept
}

fn find_organizer(organizer: &Option<String>, rows: &[ReadAttendee]) -> (r: Option<String>)
    ensures
        optional_text(r) == organizer_among(optional_text(*organizer), read_texts(rows@)),
{
    if let Some(o) = organizer {
        if has_something(o.as_str()) {
            return Some(o.clone());
        }
    }
    let ghost all = read_texts(rows@);
    let mut found: Option<String> = None;
    let mut many = false;
    let mut i: usize = 0;
    while i < rows.len()
        invariant
            i <= rows.len(),
            all == read_texts(rows@),
            found is None ==> flagged(all.take(i as int)).len() == 0 && !many,
            found matches Some(o) ==> flagged(all.take(i as int)).len() > 0 && flagged(
                all.take(i as int),
            )[0] == o@ && many == (flagged(all.take(i as int)).len() > 1),
        decreases rows.len() - i,
    {
        assert(all.take(i as int + 1).drop_last() =~= all.take(i as int));
        assert(all.take(i as int + 1).last() == rows@[i as int]@);
        if rows[i].is_organizer {
            if found.is_none() {
                found = Some(rows[i].email.clone());
            } else {
                many = true;
            }
        }
        i = i + 1;
    }
    assert(all.take(i as int) =~= all);
    if many {
        None
    } else {
        found
    }
}

/// The read rule: the event's people without the organizer among them.
///
/// `organizer` is the provider's organizer address, if it names one. A row is
/// the organizer's when the provider flags it, or when its normalised address
/// equals the organizer's. When the provider names no organizer, the address
/// of the one flagged row stands in for it; with several flagged rows it stays
/// unknown. Rows without an address are skipped; the others keep their order.
///
/// `organized_by_me` is the provider's own statement that the connected
/// account organizes the event: `Some(true)` or `Some(false)` when it says,
/// `None` when it cannot. See [`organized_elsewhere`] for how it counts.
pub fn people_from_read(
    organizer: Option<String>,
    organized_by_me: Option<bool>,
    rows: &[ReadAttendee],
) -> (r: EventPeople)
    ensures
        r@ == people_in(optional_text(organizer), organized_by_me, rows@),
{
    let kept = keep_addressed(rows);
    let who = find_organizer(&organizer, kept.as_slice());
    let key = match &who {
        Some(o) => Some(normalize_address(o.as_str())),
        None => None,
    };
    let ghost all = read_texts(kept@);
    let ghost name = optional_text(who);
    let mut attendees: Vec<String> = Vec::new();
    let mut answers: Vec<AttendeeResponse> = Vec::new();
    let mut i: usize = 0;
    assert(texts(attendees@) =~= Seq::empty());
    assert(response_texts(answers@) =~= Seq::empty());
    while i < kept.len()
        invariant
            i <= kept.len(),
            all == read_texts(kept@),
            name == optional_text(who),
            match key {
                Some(k) => name is Some && k@ == address_key(name.unwrap()),
                None => name is None,
            },
            texts(attendees@) == invited(all.take(i as int), name),
            response_texts(answers@) == responses(all.take(i as int), name),
        decreases kept.len() - i,
    {
        assert(all.take(i as int + 1).drop_last() =~= all.take(i as int));
        assert(all.take(i as int + 1).last() == kept@[i as int]@);
        let own = match &key {
            Some(k) => same(k.as_str(), normalize_address(kept[i].email.as_str()).as_str()),
            None => false,
        };
        if !kept[i].is_organizer && !own {
            let called = match &kept[i].name {
                Some(n) => if has_something(n.as_str()) {
                    Some(n.clone())
                } else {
                    None
                },
                None => None,
            };
            let entry = format(as_text(&called), kept[i].email.as_str());
            let ghost before = response_texts(answers@);
            proof {
                lemma_texts_push(attendees@, entry);
            }
            attendees.push(entry);
            let answer = AttendeeResponse {
                email: kept[i].email.clone(),
                name: called,
                status: kept[i].status,
            };
            answers.push(answer);
            assert(response_texts(answers@) =~= before.push(answer@));
        }
        i = i + 1;
    }
    assert(all.take(i as int) =~= all);
    let elsewhere = organized_elsewhere(as_text(&who), organized_by_me);
    EventPeople {
        organizer: who,
        attendees,
        attendee_responses: answers,
        organized_elsewhere: elsewhere,
    }
}

/// Whether two addresses name the same mailbox, as the rules above compare
/// them (see [`normalize_address`]). Empty addresses name nobody.
pub fn same_address(a: &str, b: &str) -> (r: bool)
    ensures
        r == (address_key(a@).len() > 0 && address_key(a@) == address_key(b@)),
{
    let x = normalize_address(a);
    !x.as_str().is_empty() && same(x.as_str(), normalize_address(b).as_str())
}

/// The entries whose address is not this key.
pub open spec fn others(attendees: Seq<Seq<char>>, key: Seq<char>) -> Seq<Seq<char>>
    decreases attendees.len(),
{
    if attendees.len() == 0 {
        Seq::empty()
    } else {
        let before = others(attendees.drop_last(), key);
        if address_key(parsed(attendees.last()).1) == key {
            before
        } else {
            before.push(attendees.last())
        }
    }
}

/// The invitees without the organizer.
pub open spec fn guests(attendees: Seq<Seq<char>>, organizer: Option<Seq<char>>) -> Seq<Seq<char>> {
    match organizer {
        Some(o) => if address_key(o).len() > 0 {
            others(attendees, address_key(o))
        } else {
            attendees
        },
        None => attendees,
    }
}

/// `attendees` without the entries whose address is the organizer's.
/// Unchanged when the organizer is unknown.
pub fn without_organizer(attendees: &[String], organizer: Option<&str>) -> (r: Vec<String>)
    ensures
        texts(r@) == guests(texts(attendees@), optional_str(organizer)),
{
    let key = match organizer {
        Some(o) => normalize_address(o),
        None => String::new(),
    };
    let unknown = key.as_str().is_empty();
    let ghost all = texts(attendees@);
    let mut out: Vec<String> = Vec::new();
    let mut i: usize = 0;
    assert(texts(out@) =~= Seq::empty());
    while i < attendees.len()
        invariant
            i <= attendees.len(),
            all == texts(attendees@),
            unknown ==> texts(out@) == all.take(i as int),
            !unknown ==> texts(out@) == others(all.take(i as int), key@),
        decreases attendees.len() - i,
    {
        assert(all.take(i as int + 1).drop_last() =~= all.take(i as int));
        let entry = attendees[i].clone();
        let own = !unknown && same(
            normalize_address(parse(attendees[i].as_str()).1.as_str()).as_str(),
            key.as_str(),
        );
        if !own {
            proof {
                lemma_texts_push(out@, entry);
            }
            out.push(entry);
        }
        i = i + 1;
        assert(unknown ==> texts(out@) =~= all.take(i as int));
    }
    assert(all.take(i as int) =~= all);
    out
}

/// Whether a list invites somebody under this address.
pub open spec fn invites(list: Seq<Seq<char>>, key: Seq<char>) -> bool {
    key.len() > 0 && exists|i: int|
        0 <= i < list.len() && address_key(parsed(#[trigger] list[i]).1) == key
}

/// Whether two lists invite the same people.
pub open spec fn invite_the_same(a: Seq<Seq<char>>, b: Seq<Seq<char>>) -> bool {
    forall|key: Seq<char>| #[trigger] invites(a, key) <==> invites(b, key)
}

fn holds_address(list: &[String], key: &str) -> (r: bool)
    requires
        key@.len() > 0,
    ensures
        r == invites(texts(list@), key@),
{
    let ghost all = texts(list@);
    let mut i: usize = 0;
    while i < list.len()
        invariant
            i <= list.len(),
            key@.len() > 0,
            all == texts(list@),
            forall|k: int| 0 <= k < i ==> address_key(parsed(#[trigger] all[k]).1) != key@,
        decreases list.len() - i,
    {
        if same(normalize_address(parse(list[i].as_str()).1.as_str()).as_str(), key) {
            assert(address_key(parsed(all[i as int]).1) == key@);
            return true;
        }
        i = i + 1;
    }
    false
}

fn covers(a: &[String], b: &[String]) -> (r: bool)
    ensures
        r == forall|key: Seq<char>| #[trigger]
            invites(texts(a@), key) ==> invites(texts(b@), key),
{
    let ghost all = texts(a@);
    let mut i: usize = 0;
    while i < a.len()
        invariant
            i <= a.len(),
            all == texts(a@),
            forall|k: int|
                0 <= k < i && address_key(parsed(#[trigger] all[k]).1).len() > 0 ==> invites(
                    texts(b@),
                    address_key(parsed(all[k]).1),
                ),
        decreases a.len() - i,
    {
        let key = normalize_address(parse(a[i].as_str()).1.as_str());
        assert(key@ == address_key(parsed(all[i as int]).1));
        if !key.as_str().is_empty() && !holds_address(b, key.as_str()) {
            assert(invites(all, key@));
            return false;
        }
        i = i + 1;
    }
    true
}

/// Whether two attendee lists invite the same people: the same normalised
/// addresses, in any order. Display names and spelling do not count.
pub fn same_invitees(a: &[String], b: &[String]) -> (r: bool)
    ensures
        r == invite_the_same(texts(a@), texts(b@)),
{
    let x = covers(a, b);
    let y = covers(b, a);
    assert(x && y ==> invite_the_same(texts(a@), texts(b@)));
    assert(invite_the_same(texts(a@), texts(b@)) ==> x && y);
    x && y
}

/// The responses that are not under this address.
pub open spec fn other_responses(list: Seq<ResponseText>, key: Seq<char>) -> Seq<ResponseText>
    decreases list.len(),
{
    if list.len() == 0 {
        Seq::empty()
    } else {
        let before = other_responses(list.drop_last(), key);
        if address_key(list.last().email) == key {
            before
        } else {
            before.push(list.last())
        }
    }
}

/// The event an update writes.
pub open spec fn guarded(event: EventText, read: Option<EventText>) -> EventText {
    let attendees = guests(event.attendees, event.organizer);
    let kept = match read {
        Some(before) => invite_the_same(guests(before.attendees, before.organizer), attendees),
        None => false,
    };
    let cleared = attendees.len() == 0 && match read {
        Some(before) => guests(before.attendees, before.organizer).len() > 0,
        None => false,
    };
    EventText {
        attendees,
        attendee_responses: match event.organizer {
            Some(o) => other_responses(event.attendee_responses, address_key(o)),
            None => event.attendee_responses,
        },
        keep_attendees: kept,
        clear_attendees: cleared,
        send_invitations: event.send_invitations && !event.organized_elsewhere && (attendees.len()
            > 0 || cleared),
        ..event
    }
}

fn drop_responses(list: &[AttendeeResponse], key: &str) -> (r: Vec<AttendeeResponse>)
    ensures
        response_texts(r@) == other_responses(response_texts(list@), key@),
{
    let ghost all = response_texts(list@);
    let mut out: Vec<AttendeeResponse> = Vec::new();
    let mut i: usize = 0;
    assert(response_texts(out@) =~= Seq::empty());
    while i < list.len()
        invariant
            i <= list.len(),
            all == response_texts(list@),
            response_texts(out@) == other_responses(all.take(i as int), key@),
        decreases list.len() - i,
    {
        assert(all.take(i as int + 1).drop_last() =~= all.take(i as int));
        assert(all.take(i as int + 1).last() == list@[i as int]@);
        if !same(normalize_address(list[i].email.as_str()).as_str(), key) {
            let ghost before = response_texts(out@);
            let answer = list[i].copy();
            out.push(answer);
            assert(response_texts(out@) =~= before.push(answer@));
        }
        i = i + 1;
    }
    assert(all.take(i as int) =~= all);
    out
}

/// The view of the copy an event was read as.
pub open spec fn optional_event(o: Option<&Event>) -> Option<EventText> {
    match o {
        Some(e) => Some(e@),
        None => None,
    }
}

/// The write rule for an update, run by the host before the adapter sees the
/// event. `read` is the event as it was last read, when the host has it.
///
/// - The organizer leaves the attendee list, and the responses.
/// - The send intent survives only for an event the account organizes, with
///   someone else invited, or with invitees just removed, who may be told.
/// - When `read` shows the same invitees, [`Event::keep_attendees`] tells the
///   adapter to leave the provider's list as it is, so a title or time change
///   never rewrites who is invited.
/// - When the edit removed every invitee `read` shows,
///   [`Event::clear_attendees`] tells the adapter to write the list empty,
///   which it never does for an empty list alone.
pub fn guard_update(event: &mut Event, read: Option<&Event>)
    ensures
        final(event)@ == guarded(old(event)@, optional_event(read)),
{
    let attendees = without_organizer(event.attendees.as_slice(), as_text(&event.organizer));
    let answers = match &event.organizer {
        Some(o) => {
            let key = normalize_address(o.as_str());
            Some(drop_responses(event.attendee_responses.as_slice(), key.as_str()))
        },
        None => None,
    };
    let (kept, cleared) = match read {
        Some(r) => {
            let before = without_organizer(r.attendees.as_slice(), as_text(&r.organizer));
            assert(texts(before@).len() == before@.len());
            assert(texts(attendees@).len() == attendees@.len());
            (
                same_invitees(before.as_slice(), attendees.as_slice()),
                attendees.len() == 0 && before.len() > 0,
            )
        },
        None => (false, false),
    };
    assert(texts(attendees@).len() == attendees@.len());
    let send = event.send_invitations && !event.organized_elsewhere && (attendees.len() > 0
        || cleared);
    event.attendees = attendees;
    if let Some(list) = answers {
        event.attendee_responses = list;
    }
    event.keep_attendees = kept;
    event.clear_attendees = cleared;
    event.send_invitations = send;
}

/// The event a create writes.
pub open spec fn guarded_new(event: NewEventText) -> NewEventText {
    let attendees = guests(event.attendees, event.organizer);
    NewEventText {
        attendees,
        send_invitations: event.send_invitations && !event.organized_elsewhere && attendees.len()
            > 0,
        ..event
    }
}

/// The write rule for a create, run by the host before the adapter sees it.
/// A create derived from an existing event (a single occurrence carved out, a
/// copy, a carried or detached one) names that event's organizer in
/// [`NewEvent::organizer`], so the organizer leaves the list here too; and it
/// may notify only if that event was the account's own.
pub fn guard_create(event: &mut NewEvent)
    ensures
        final(event)@ == guarded_new(old(event)@),
{
    let attendees = without_organizer(event.attendees.as_slice(), as_text(&event.organizer));
    assert(texts(attendees@).len() == attendees@.len());
    let send = event.send_invitations && !event.organized_elsewhere && attendees.len() > 0;
    event.attendees = attendees;
    event.send_invitations = send;
}

// ---------------------------------------------------------------------------
// Laws
// ---------------------------------------------------------------------------

/// A text that is not empty and has no white space at its ends.
pub open spec fn is_bare(s: Seq<char>) -> bool {
    s.len() > 0 && !Blank::Unicode.holds(s[0]) && !Blank::Unicode.holds(s.last())
}

/// What [`format`] writes, [`parse`] reads back: a name without quotation marks
/// at its ends beside an address without angle brackets, and such an address
/// alone.
pub proof fn parsing_undoes_formatting(name: Seq<char>, email: Seq<char>)
    requires
        is_bare(name),
        is_bare(email),
        name != email,
        name[0] != '"',
        name.last() != '"',
        forall|i: int| 0 <= i < email.len() ==> (#[trigger] email[i]) != '<' && email[i] != '>',
    ensures
        parsed(formatted(Some(name), email)) == (Some(name), email),
        parsed(formatted(None, email)) == (None::<Seq<char>>, email),
{
    reveal_strlit(" <");
    reveal_strlit(">");
    lemma_trimmed_same(name, Blank::Unicode);
    lemma_trimmed_same(name, Blank::Quote);
    lemma_trimmed_same(email, Blank::Unicode);
    let entry = formatted(Some(name), email);
    let open: int = name.len() as int + 1;
    assert(entry =~= name + seq![' ', '<'] + email + seq!['>']);
    assert(entry.last() == '>');
    lemma_trimmed_same(entry, Blank::Unicode);
    lemma_last_index(entry, '<');
    assert(entry[open] == '<');
    assert forall|j: int| open < j < entry.len() implies entry[j] != '<' by {
        if j < entry.len() - 1 {
            assert(entry[j] == email[j - open - 1]);
        }
    }
    assert(last_index(entry, '<') == Some(open));
    let rest = entry.skip(open + 1);
    assert(rest =~= email + seq!['>']);
    lemma_first_index(rest, '>');
    assert(rest[email.len() as int] == '>');
    assert forall|j: int| 0 <= j < email.len() implies rest[j] != '>' by {
        assert(rest[j] == email[j]);
    }
    assert(first_index(rest, '>') == Some(email.len() as int));
    assert(entry.subrange(open + 1, open + 1 + email.len()) =~= email);
    let front = entry.take(open);
    assert(front =~= name.push(' '));
    lemma_trailing_space(name);
    lemma_last_index(email, '<');
}

proof fn lemma_trailing_space(name: Seq<char>)
    requires
        is_bare(name),
    ensures
        trimmed(name.push(' '), Blank::Unicode) == name,
{
    let s = name.push(' ');
    assert(s.drop_last() =~= name);
    assert(s.last() == ' ');
    assert(trimmed_front(s, Blank::Unicode) == s);
    assert(trimmed_back(s, Blank::Unicode) == trimmed_back(name, Blank::Unicode));
}

proof fn lemma_others(list: Seq<Seq<char>>, key: Seq<char>)
    ensures
        forall|i: int|
            0 <= i < others(list, key).len() ==> address_key(
                parsed(#[trigger] others(list, key)[i]).1,
            ) != key,
    decreases list.len(),
{
    if list.len() > 0 {
        lemma_others(list.drop_last(), key);
        let before = others(list.drop_last(), key);
        assert forall|i: int| 0 <= i < others(list, key).len() implies address_key(
            parsed(#[trigger] others(list, key)[i]).1,
        ) != key by {
            if i < before.len() {
                assert(others(list, key)[i] == before[i]);
            }
        }
    }
}

proof fn lemma_others_same(list: Seq<Seq<char>>, key: Seq<char>)
    requires
        forall|i: int|
            0 <= i < list.len() ==> address_key(parsed(#[trigger] list[i]).1) != key,
    ensures
        others(list, key) == list,
    decreases list.len(),
{
    if list.len() > 0 {
        let front = list.drop_last();
        assert forall|i: int| 0 <= i < front.len() implies address_key(
            parsed(#[trigger] front[i]).1,
        ) != key by {
            assert(front[i] == list[i]);
        }
        lemma_others_same(front, key);
        assert(list.last() == list[list.len() - 1]);
        assert(front.push(list.last()) =~= list);
    }
}

/// A known organizer is not among the guests, and taking the organizer out
/// twice takes nothing more out.
pub proof fn the_organizer_is_no_guest(list: Seq<Seq<char>>, organizer: Seq<char>)
    requires
        address_key(organizer).len() > 0,
    ensures
        !invites(guests(list, Some(organizer)), address_key(organizer)),
        guests(guests(list, Some(organizer)), Some(organizer)) == guests(list, Some(organizer)),
{
    let key = address_key(organizer);
    lemma_others(list, key);
    lemma_others_same(others(list, key), key);
}

/// Whoever is read as an invitee is not the organizer, by flag or by address,
/// and there is one response for each of them, in the same order.
pub proof fn no_organizer_is_read_as_an_invitee(
    rows: Seq<ReadText>,
    organizer: Option<Seq<char>>,
    i: int,
)
    requires
        0 <= i < responses(rows, organizer).len(),
    ensures
        invited(rows, organizer).len() == responses(rows, organizer).len(),
        ({
            let answer = responses(rows, organizer)[i];
            &&& invited(rows, organizer)[i] == formatted(answer.name, answer.email)
            &&& organizer matches Some(o) ==> address_key(answer.email) != address_key(o)
        }),
    decreases rows.len(),
{
    lemma_same_length(rows, organizer);
    let front = rows.drop_last();
    let before = responses(front, organizer);
    if i < before.len() {
        no_organizer_is_read_as_an_invitee(front, organizer, i);
        assert(responses(rows, organizer)[i] == before[i]);
        assert(invited(rows, organizer)[i] == invited(front, organizer)[i]);
    } else {
        lemma_same_length(front, organizer);
    }
}

proof fn lemma_same_length(rows: Seq<ReadText>, organizer: Option<Seq<char>>)
    ensures
        invited(rows, organizer).len() == responses(rows, organizer).len(),
    decreases rows.len(),
{
    if rows.len() > 0 {
        lemma_same_length(rows.drop_last(), organizer);
    }
}

proof fn lemma_responses_twice(list: Seq<ResponseText>, key: Seq<char>)
    ensures
        other_responses(other_responses(list, key), key) == other_responses(list, key),
    decreases list.len(),
{
    if list.len() > 0 {
        lemma_responses_twice(list.drop_last(), key);
        let before = other_responses(list.drop_last(), key);
        if address_key(list.last().email) != key {
            assert(before.push(list.last()).drop_last() =~= before);
        }
    }
}

/// Guarding an update twice changes nothing more, and only an event the account
/// organizes keeps its send intent.
pub proof fn guarding_twice_changes_nothing(event: EventText, read: Option<EventText>)
    ensures
        guarded(guarded(event, read), read) == guarded(event, read),
        guarded(event, read).send_invitations ==> event.send_invitations
            && !event.organized_elsewhere,
{
    let once = guarded(event, read);
    let twice = guarded(once, read);
    if let Some(o) = event.organizer {
        lemma_responses_twice(event.attendee_responses, address_key(o));
        if address_key(o).len() > 0 {
            the_organizer_is_no_guest(event.attendees, o);
        }
    }
    assert(twice =~= once);
}

// ---------------------------------------------------------------------------
// Who is who
// ---------------------------------------------------------------------------

/// A row is an invitee's: it has an address, the provider does not flag it as the
/// organizer's, and its address is not that of the organizer.
pub open spec fn is_invitee(row: ReadAttendee, organizer: Option<Seq<char>>) -> bool {
    &&& trimmed(row.email@, Blank::Unicode).len() > 0
    &&& !row.is_organizer
    &&& organizer is Some ==> address_key(organizer->0) != address_key(row.email@)
}

/// The places of the rows that are invitees', among the first `n`.
pub open spec fn invitee_rows(
    rows: Seq<ReadAttendee>,
    organizer: Option<Seq<char>>,
    n: int,
) -> Seq<int>
    decreases n,
{
    if n <= 0 {
        Seq::empty()
    } else if is_invitee(rows[n - 1], organizer) {
        invitee_rows(rows, organizer, n - 1).push(n - 1)
    } else {
        invitee_rows(rows, organizer, n - 1)
    }
}

/// The invitees are read one for one from the rows that are theirs, in order: the
/// editable form of the name and the address, and the answer of the same row. A
/// name of white space is no name.
pub proof fn the_invitees_are_their_rows(
    rows: Seq<ReadAttendee>,
    organizer: Option<Seq<char>>,
    n: int,
)
    requires
        0 <= n <= rows.len(),
    ensures
        ({
            let kept = addressed(rows.take(n));
            let at = invitee_rows(rows, organizer, n);
            let entries = invited(kept, organizer);
            let answers = responses(kept, organizer);
            &&& entries.len() == at.len()
            &&& answers.len() == at.len()
            &&& forall|k: int|
                0 <= k < at.len() ==> {
                    let row = rows[#[trigger] at[k]];
                    let name = if row.name is Some && trimmed(row.name->0@, Blank::Unicode).len()
                        > 0 {
                        Some(row.name->0@)
                    } else {
                        None
                    };
                    &&& entries[k] == formatted(name, row.email@)
                    &&& answers[k] == (ResponseText {
                        email: row.email@,
                        name,
                        status: row.status,
                    })
                }
        }),
    decreases n,
{
    if n > 0 {
        the_invitees_are_their_rows(rows, organizer, n - 1);
        assert(rows.take(n).drop_last() =~= rows.take(n - 1));
        assert(rows.take(n).last() == rows[n - 1]);
        let before = addressed(rows.take(n - 1));
        let kept = addressed(rows.take(n));
        if says_something(rows[n - 1].email@) {
            assert(kept.drop_last() =~= before);
            assert(kept.last() == rows[n - 1]@);
        }
    }
}

/// How many rows with an address the provider flags, among the first `n`.
pub open spec fn flags(rows: Seq<ReadText>, n: int) -> int
    decreases n,
{
    if n <= 0 {
        0
    } else {
        flags(rows, n - 1) + if rows[n - 1].is_organizer {
            1int
        } else {
            0int
        }
    }
}

/// The organizer is whom the provider names; where it names none, the one row it
/// flags; with none or several of them, nobody.
pub proof fn who_organizes(organizer: Option<Seq<char>>, rows: Seq<ReadText>, i: int)
    ensures
        ({
            let named = organizer is Some && trimmed(organizer->0, Blank::Unicode).len() > 0;
            let who = organizer_among(organizer, rows);
            &&& named ==> who == organizer
            &&& !named ==> (who is Some <==> flags(rows, rows.len() as int) == 1)
            &&& !named && who is Some && 0 <= i < rows.len() && rows[i].is_organizer ==> who
                == Some(rows[i].email)
        }),
{
    lemma_flags(rows, i);
}

proof fn lemma_flags(rows: Seq<ReadText>, i: int)
    ensures
        flagged(rows).len() == flags(rows, rows.len() as int),
        0 <= i < rows.len() && rows[i].is_organizer ==> flagged(rows).contains(rows[i].email),
    decreases rows.len(),
{
    if rows.len() > 0 {
        let front = rows.drop_last();
        lemma_flags(front, i);
        lemma_flags_front(rows, front, front.len() as int);
        let before = flagged(front);
        let all = flagged(rows);
        if 0 <= i < front.len() && rows[i].is_organizer {
            assert(front[i] == rows[i]);
            let k = choose|k: int| 0 <= k < before.len() && before[k] == rows[i].email;
            assert(all[k] == rows[i].email);
        }
        if i == front.len() && rows[i].is_organizer {
            assert(all[before.len() as int] == rows[i].email);
        }
    }
}

proof fn lemma_flags_front(rows: Seq<ReadText>, front: Seq<ReadText>, n: int)
    requires
        0 <= n <= front.len() <= rows.len(),
        forall|i: int| 0 <= i < front.len() ==> #[trigger] rows[i] == front[i],
    ensures
        flags(rows, n) == flags(front, n),
    decreases n,
{
    if n > 0 {
        lemma_flags_front(rows, front, n - 1);
        assert(rows[n - 1] == front[n - 1]);
    }
}

/// Whether an event is organized elsewhere is what the provider says; where it
/// does not say, it is exactly where an organizer is named.
pub proof fn who_says_where_it_is_organized(organizer: Option<Seq<char>>, mine: bool)
    ensures
        elsewhere(organizer, Some(mine)) <==> !mine,
        elsewhere(organizer, None) <==> organizer is Some && trimmed(
            organizer->0,
            Blank::Unicode,
        ).len() > 0,
{
}

/// The guests are all who are listed, but for whoever has the organizer's
/// address, where that is known.
pub proof fn the_guests_are_all_but_the_organizer(
    attendees: Seq<Seq<char>>,
    organizer: Option<Seq<char>>,
    entry: Seq<char>,
)
    ensures
        guests(attendees, organizer).contains(entry) <==> attendees.contains(entry) && !(organizer
            is Some && address_key(organizer->0).len() > 0 && address_key(parsed(entry).1)
            == address_key(organizer->0)),
{
    if organizer is Some && address_key(organizer->0).len() > 0 {
        lemma_others_hold(attendees, address_key(organizer->0), entry);
    }
}

proof fn lemma_others_hold(list: Seq<Seq<char>>, key: Seq<char>, entry: Seq<char>)
    ensures
        others(list, key).contains(entry) <==> list.contains(entry) && address_key(parsed(entry).1)
            != key,
    decreases list.len(),
{
    if list.len() > 0 {
        let front = list.drop_last();
        let before = others(front, key);
        let all = others(list, key);
        lemma_others_hold(front, key, entry);
        assert(list[list.len() - 1] == list.last());
        if front.contains(entry) {
            let k = choose|k: int| 0 <= k < front.len() && front[k] == entry;
            assert(list[k] == entry);
        }
        if list.contains(entry) && entry != list.last() {
            let k = choose|k: int| 0 <= k < list.len() && list[k] == entry;
            assert(front[k] == entry);
        }
        if before.contains(entry) {
            let k = choose|k: int| 0 <= k < before.len() && before[k] == entry;
            assert(all[k] == entry);
        }
        if all.contains(entry) && !before.contains(entry) {
            let k = choose|k: int| 0 <= k < all.len() && all[k] == entry;
            if k < before.len() {
                assert(before[k] == entry);
            }
        }
        if all.len() > before.len() {
            assert(all[before.len() as int] == list.last());
        }
    }
}

/// What an update writes: its guests; the list is kept exactly where the copy
/// read invites the same people, and cleared exactly where that had guests and
/// none is left; and invitations go out only where they were asked for, the
/// account organizes the event, and there is somebody to tell. Nothing else of
/// the event changes.
pub proof fn what_an_update_writes(event: EventText, read: Option<EventText>)
    ensures
        ({
            let r = guarded(event, read);
            let now = guests(event.attendees, event.organizer);
            let had = guests(read->0.attendees, read->0.organizer);
            &&& r.attendees == now
            &&& r.keep_attendees <==> read is Some && forall|key: Seq<char>| #[trigger]
                invites(had, key) <==> invites(now, key)
            &&& r.clear_attendees <==> read is Some && had.len() > 0 && now.len() == 0
            &&& r.send_invitations <==> event.send_invitations && !event.organized_elsewhere && (
            now.len() > 0 || (read is Some && had.len() > 0))
            &&& r == (EventText {
                attendees: r.attendees,
                attendee_responses: r.attendee_responses,
                keep_attendees: r.keep_attendees,
                clear_attendees: r.clear_attendees,
                send_invitations: r.send_invitations,
                ..event
            })
        }),
{
}

/// The answers an update keeps are all but those under the organizer's address.
pub proof fn an_update_keeps_the_others_answers(
    event: EventText,
    read: Option<EventText>,
    answer: ResponseText,
)
    ensures
        guarded(event, read).attendee_responses.contains(answer)
            <==> event.attendee_responses.contains(answer) && !(event.organizer is Some
            && address_key(answer.email) == address_key(event.organizer->0)),
{
    if event.organizer is Some {
        lemma_other_answers(event.attendee_responses, address_key(event.organizer->0), answer);
    }
}

proof fn lemma_other_answers(list: Seq<ResponseText>, key: Seq<char>, answer: ResponseText)
    ensures
        other_responses(list, key).contains(answer) <==> list.contains(answer) && address_key(
            answer.email,
        ) != key,
    decreases list.len(),
{
    if list.len() > 0 {
        let front = list.drop_last();
        let before = other_responses(front, key);
        let all = other_responses(list, key);
        lemma_other_answers(front, key, answer);
        assert(list[list.len() - 1] == list.last());
        if front.contains(answer) {
            let k = choose|k: int| 0 <= k < front.len() && front[k] == answer;
            assert(list[k] == answer);
        }
        if list.contains(answer) && answer != list.last() {
            let k = choose|k: int| 0 <= k < list.len() && list[k] == answer;
            assert(front[k] == answer);
        }
        if before.contains(answer) {
            let k = choose|k: int| 0 <= k < before.len() && before[k] == answer;
            assert(all[k] == answer);
        }
        if all.contains(answer) && !before.contains(answer) {
            let k = choose|k: int| 0 <= k < all.len() && all[k] == answer;
            if k < before.len() {
                assert(before[k] == answer);
            }
        }
        if all.len() > before.len() {
            assert(all[before.len() as int] == list.last());
        }
    }
}

/// What a create writes: its guests, and the intent to invite only where it was
/// there, the account organizes the event, and somebody is invited.
pub proof fn what_a_create_writes(event: NewEventText)
    ensures
        guarded_new(event).attendees == guests(event.attendees, event.organizer),
        guarded_new(event).send_invitations <==> event.send_invitations
            && !event.organized_elsewhere && guests(event.attendees, event.organizer).len() > 0,
        guarded_new(event) == (NewEventText {
            attendees: guarded_new(event).attendees,
            send_invitations: guarded_new(event).send_invitations,
            ..event
        }),
{
}

/// White space round an address does not count, and neither does a scheme before
/// it.
pub proof fn a_scheme_before_an_address_does_not_count(address: Seq<char>)
    requires
        address.len() > 0,
        !Blank::Unicode.holds(address[0]),
        !Blank::Unicode.holds(address.last()),
        !(address.len() >= 7 && lowercase(address.take(7)) == "mailto:"@),
    ensures
        address_key(address) == lowercased(address),
        address_key("mailto:"@ + address) == lowercased(address),
        address_key("MAILTO:"@ + address) == lowercased(address),
{
    reveal_strlit("mailto:");
    reveal_strlit("MAILTO:");
    lemma_trimmed_same(address, Blank::Unicode);
    let small = "mailto:"@ + address;
    let large = "MAILTO:"@ + address;
    assert(small[0] == 'm' && large[0] == 'M');
    assert(small.last() == address.last() && large.last() == address.last());
    lemma_trimmed_same(small, Blank::Unicode);
    lemma_trimmed_same(large, Blank::Unicode);
    assert(small.take(7) =~= "mailto:"@);
    assert(large.take(7) =~= "MAILTO:"@);
    assert(lowercase(small.take(7)) =~= "mailto:"@);
    assert(lowercase(large.take(7)) =~= "mailto:"@);
    assert(small.skip(7) =~= address);
    assert(large.skip(7) =~= address);
}

} // verus!
