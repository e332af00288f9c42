//! A meeting someone else organizes, on a provider that takes only the
//! attendee's own changes.
//!
//! On an attendee's copy of a meeting, a scheduling server accepts the
//! attendee's own reply and its own alarms, and refuses everything else. Such an
//! invitation is therefore shown read-only apart from those two, instead of
//! offering edits the server would throw away. Deleting stays possible: the
//! server then tells the organizer.
//!
//! What stands here is the WRITE rule: which field an attendee may change, and
//! what a difference against an unseen copy means. The adapter asks it against
//! the server's fresh copy, before any write.

use vstd::prelude::*;

use crate::event_diff::{
    a_field_is_changed_where_it_is_not_kept, changed_fields, differing, every_field, is_kept_by,
    is_ranked, rank, EventField,
};
use crate::types::{Event, EventText};

verus! {

/// The first of some fields that is not the reminders.
pub open spec fn first_protected(fields: Seq<EventField>) -> Option<EventField>
    decreases fields.len(),
{
    if fields.len() == 0 {
        None
    } else if fields[0] is Reminders {
        first_protected(fields.skip(1))
    } else {
        Some(fields[0])
    }
}

/// The first field of an edit that an attendee may not change.
pub open spec fn protected_change(edit: EventText, before: EventText) -> Option<EventField> {
    first_protected(differing(every_field(), edit, before))
}

/// The first field of `edit` that an attendee may not change, compared against
/// `before`, in [`EventField`] order. `None` when the edit changes nothing but
/// the attendee's own reminders.
///
/// Reminders are the one field an attendee writes. A sound, a colour label and
/// the answer itself are not fields at all.
pub fn reply_only_change(edit: &Event, before: &Event) -> (r: Option<EventField>)
    ensures
        r == protected_change(edit@, before@),
{
    let changed = changed_fields(edit, before);
    let mut i: usize = 0;
    assert(changed@.skip(0) =~= changed@);
    while i < changed.len()
        invariant
            i <= changed.len(),
            changed@ == differing(every_field(), edit@, before@),
            first_protected(changed@) == first_protected(changed@.skip(i as int)),
        decreases changed.len() - i,
    {
        let field = changed[i];
        if field != EventField::Reminders {
            return Some(field);
        }
        assert(changed@.skip(i as int).skip(1) =~= changed@.skip(i as int + 1));
        i = i + 1;
    }
    None
}

/// What a write of an invitation may do.
#[derive(Debug, Clone, Copy, PartialEq, Eq, Structural)]
pub enum ReplyOnlyVerdict {
    /// Nothing protected changed: write it.
    Allowed,
    /// Something protected differs from a copy the caller never saw. That is
    /// the organizer's change, not the user's, so the save is a conflict and
    /// not a refusal: the surfaces ask the user to look at the new copy.
    Stale,
    /// The user changed a field only the organizer may change.
    Refused(EventField),
}

/// The verdict for saving `edit` over the copy `before`.
///
/// `same_version` says whether the caller edited *that* copy: its ETag was
/// known and equals the one just read. Otherwise a protected difference makes
/// the edit stale: it may well be the organizer's own
/// change, which nobody here can undo.
pub fn reply_only_verdict(edit: &Event, before: &Event, same_version: bool) -> (r: ReplyOnlyVerdict)
    ensures
        r == match protected_change(edit@, before@) {
            None => ReplyOnlyVerdict::Allowed,
            Some(field) => if same_version {
                ReplyOnlyVerdict::Refused(field)
            } else {
                ReplyOnlyVerdict::Stale
            },
        },
{
    match reply_only_change(edit, before) {
        None => ReplyOnlyVerdict::Allowed,
        Some(field) => if same_version {
            ReplyOnlyVerdict::Refused(field)
        } else {
            ReplyOnlyVerdict::Stale
        },
    }
}

proof fn lemma_first_protected(fields: Seq<EventField>)
    ensures
        first_protected(fields) is None <==> forall|i: int|
            0 <= i < fields.len() ==> (#[trigger] fields[i]) is Reminders,
        first_protected(fields) matches Some(field) ==> field !is Reminders && fields.contains(
            field,
        ),
    decreases fields.len(),
{
    if fields.len() > 0 {
        let rest = fields.skip(1);
        lemma_first_protected(rest);
        assert(forall|i: int| 0 <= i < rest.len() ==> #[trigger] rest[i] == fields[i + 1]);
        assert forall|i: int| 0 < i < fields.len() implies #[trigger] fields[i] == rest[i - 1] by {}
        if fields[0] is Reminders {
            if let Some(field) = first_protected(rest) {
                let i = choose|i: int| 0 <= i < rest.len() && rest[i] == field;
                assert(fields[i + 1] == field);
            }
        } else {
            assert(fields.contains(fields[0]));
        }
    }
}

/// An attendee may write exactly what leaves every field but the reminders as
/// it was, and a refusal names a field that changed and is not the reminders.
pub proof fn an_attendee_writes_reminders_alone(edit: EventText, before: EventText)
    ensures
        protected_change(edit, before) is None <==> forall|i: int|
            0 <= i < differing(every_field(), edit, before).len() ==> (#[trigger] differing(
                every_field(),
                edit,
                before,
            )[i]) is Reminders,
        protected_change(edit, before) matches Some(field) ==> field !is Reminders && differing(
            every_field(),
            edit,
            before,
        ).contains(field),
{
    lemma_first_protected(differing(every_field(), edit, before));
}

/// An attendee's edit is refused for the first field, in their order, that is not
/// kept and is not the reminders, and for none exactly where every other field is
/// kept.
pub proof fn an_edit_is_refused_for_its_first_protected_change(
    edit: EventText,
    before: EventText,
    field: EventField,
)
    ensures
        protected_change(edit, before) == Some(field) <==> !(field is Reminders) && !is_kept_by(
            field,
            edit,
            before,
        ) && forall|other: EventField|
            rank(other) < rank(field) && !(other is Reminders) ==> #[trigger] is_kept_by(
                other,
                edit,
                before,
            ),
        protected_change(edit, before) is None <==> forall|other: EventField|
            !(other is Reminders) ==> #[trigger] is_kept_by(other, edit, before),
{
    let list = differing(every_field(), edit, before);
    a_field_is_changed_where_it_is_not_kept(edit, before, field);
    assert forall|other: EventField| list.contains(other) <==> !#[trigger] is_kept_by(
        other,
        edit,
        before,
    ) by {
        a_field_is_changed_where_it_is_not_kept(edit, before, other);
    }
    lemma_nearest_protected(list);
    match first_protected(list) {
        Some(found) => {
            assert(list.contains(found));
            assert(!is_kept_by(found, edit, before));
            assert forall|other: EventField|
                rank(other) < rank(found) && !(other is Reminders) implies #[trigger] is_kept_by(
                other,
                edit,
                before,
            ) by {
                if list.contains(other) {
                    let k = choose|k: int| 0 <= k < list.len() && list[k] == other;
                    assert(rank(list[k]) >= rank(found));
                }
            }
            if field != found {
                lemma_ranks_differ(field, found);
            }
        },
        None => {
            assert forall|other: EventField| !(other is Reminders) implies #[trigger] is_kept_by(
                other,
                edit,
                before,
            ) by {
                if list.contains(other) {
                    let k = choose|k: int| 0 <= k < list.len() && list[k] == other;
                    assert(list[k] is Reminders);
                }
            }
        },
    }
}

proof fn lemma_ranks_differ(a: EventField, b: EventField)
    requires
        a != b,
    ensures
        rank(a) != rank(b),
{
}

proof fn lemma_nearest_protected(list: Seq<EventField>)
    requires
        is_ranked(list),
    ensures
        match first_protected(list) {
            Some(found) => !(found is Reminders) && list.contains(found) && forall|k: int|
                0 <= k < list.len() && !(#[trigger] list[k] is Reminders) ==> rank(list[k]) >= rank(
                    found,
                ),
            None => forall|k: int| 0 <= k < list.len() ==> (#[trigger] list[k]) is Reminders,
        },
    decreases list.len(),
{
    if list.len() > 0 {
        let rest = list.skip(1);
        assert forall|i: int, j: int| 0 <= i < j < rest.len() implies rank(#[trigger] rest[i])
            < rank(#[trigger] rest[j]) by {
            assert(rest[i] == list[i + 1] && rest[j] == list[j + 1]);
        }
        if list[0] is Reminders {
            lemma_nearest_protected(rest);
            match first_protected(rest) {
                Some(found) => {
                    let k = choose|k: int| 0 <= k < rest.len() && rest[k] == found;
                    assert(list[k + 1] == found);
                    assert forall|k: int| 0 <= k < list.len() && !(#[trigger] list[k] is Reminders)
                        implies rank(list[k]) >= rank(found) by {
                        assert(rest[k - 1] == list[k]);
                    }
                },
                None => {
                    assert forall|k: int| 0 <= k < list.len() implies (#[trigger] list[k])
                        is Reminders by {
                        if k > 0 {
                            assert(rest[k - 1] == list[k]);
                        }
                    }
                },
            }
        } else {
            assert(list.contains(list[0]));
        }
    }
}

} // verus!
