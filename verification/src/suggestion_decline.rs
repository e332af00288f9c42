//! "These two are NOT the same appointment."
//!
//! The record of the answer NO to an offered copy, so the offer is made once
//! rather than every morning.

use vstd::prelude::*;

use crate::event_group::EventKey;
use crate::text::{
    lemma_precedes_total, lemma_precedes_transitive, optional_text, precedes, same, text_before,
};

verus! {

/// A pair the user has said is not one appointment.
///
/// Stored in a CANONICAL order, the smaller `(calendar, event)` first as text,
/// so "A and B" and "B and A" are one decision.
#[derive(Debug, Clone, PartialEq, Eq)]
pub struct SuggestionDecline {
    pub calendar_a: String,
    pub event_a: String,
    pub calendar_b: String,
    pub event_b: String,
    pub declined_at: String,
    /// When the pair was last grouped BY HAND, if ever: the opposite statement.
    /// The pair counts as refused iff `declined_at` is not the earlier of the
    /// two.
    pub cleared_at: Option<String>,
}

/// `a` comes before `b`: by its calendar, then by its event, as text.
pub open spec fn key_precedes(a: EventKey, b: EventKey) -> bool {
    precedes(a.calendar, b.calendar) || a.calendar == b.calendar && precedes(a.event, b.event)
}

/// What a [`SuggestionDecline`] says: the two events, when they were declined
/// and when that was taken back.
pub struct DeclineText {
    pub a: EventKey,
    pub b: EventKey,
    pub declined_at: Seq<char>,
    pub cleared_at: Option<Seq<char>>,
}

impl View for SuggestionDecline {
    type V = DeclineText;

    open spec fn view(&self) -> DeclineText {
        DeclineText {
            a: EventKey { calendar: self.calendar_a@, event: self.event_a@ },
            b: EventKey { calendar: self.calendar_b@, event: self.event_b@ },
            declined_at: self.declined_at@,
            cleared_at: optional_text(self.cleared_at),
        }
    }
}

/// The later of two stamps.
pub open spec fn later(mine: Seq<char>, theirs: Seq<char>) -> Seq<char> {
    if precedes(mine, theirs) {
        theirs
    } else {
        mine
    }
}

/// The later of two stamps that may be absent.
pub open spec fn later_of(mine: Option<Seq<char>>, theirs: Option<Seq<char>>) -> Option<
    Seq<char>,
> {
    match (mine, theirs) {
        (_, None) => mine,
        (None, Some(_)) => theirs,
        (Some(m), Some(t)) => Some(later(m, t)),
    }
}

impl DeclineText {
    /// The pair is refused: the later statement wins, and a tie counts as
    /// refused.
    pub open spec fn refuses(self) -> bool {
        match self.cleared_at {
            None => true,
            Some(cleared) => !precedes(self.declined_at, cleared),
        }
    }

    /// The record with the later of each statement.
    pub open spec fn merged(self, other: DeclineText) -> DeclineText {
        DeclineText {
            declined_at: later(self.declined_at, other.declined_at),
            cleared_at: later_of(self.cleared_at, other.cleared_at),
            ..self
        }
    }

    /// The record names these two events, either way round.
    pub open spec fn names(self, x: EventKey, y: EventKey) -> bool {
        self.a == x && self.b == y || self.a == y && self.b == x
    }
}

impl SuggestionDecline {
    /// Builds one in canonical order, whichever way round the caller names it.
    pub fn new(first: (&str, &str), second: (&str, &str), declined_at: String) -> (r:
        SuggestionDecline)
        ensures
            ({
                let x = EventKey { calendar: first.0@, event: first.1@ };
                let y = EventKey { calendar: second.0@, event: second.1@ };
                r@ == DeclineText {
                    a: if key_precedes(y, x) {
                        y
                    } else {
                        x
                    },
                    b: if key_precedes(y, x) {
                        x
                    } else {
                        y
                    },
                    declined_at: declined_at@,
                    cleared_at: None,
                }
            }),
    {
        let swapped = text_before(second.0, first.0) || (same(second.0, first.0) && text_before(
            second.1,
            first.1,
        ));
        let (a, b) = if swapped {
            (second, first)
        } else {
            (first, second)
        };
        SuggestionDecline {
            calendar_a: a.0.to_owned(),
            event_a: a.1.to_owned(),
            calendar_b: b.0.to_owned(),
            event_b: b.1.to_owned(),
            declined_at,
            cleared_at: None,
        }
    }

    /// Whether this row currently refuses the pair.
    pub fn is_declined(&self) -> (r: bool)
        ensures
            r == self@.refuses(),
    {
        match &self.cleared_at {
            None => true,
            Some(cleared) => !text_before(self.declined_at.as_str(), cleared.as_str()),
        }
    }

    /// Merges two views of the same pair: the later of each statement.
    pub fn merge(&mut self, other: &SuggestionDecline)
        ensures
            final(self)@ == old(self)@.merged(other@),
    {
        if text_before(self.declined_at.as_str(), other.declined_at.as_str()) {
            self.declined_at = other.declined_at.clone();
        }
        if let Some(theirs) = &other.cleared_at {
            let newer = match &self.cleared_at {
                None => true,
                Some(mine) => text_before(mine.as_str(), theirs.as_str()),
            };
            if newer {
                self.cleared_at = Some(theirs.clone());
            }
        }
    }
}

/// Either way round, a declined pair is one record.
pub proof fn a_pair_is_one_decision(x: EventKey, y: EventKey)
    ensures
        (if key_precedes(y, x) {
            (y, x)
        } else {
            (x, y)
        }) == (if key_precedes(x, y) {
            (x, y)
        } else {
            (y, x)
        }),
{
    lemma_precedes_total(x.calendar, y.calendar);
    lemma_precedes_total(y.calendar, x.calendar);
    lemma_precedes_total(x.event, y.event);
    lemma_precedes_total(y.event, x.event);
}

proof fn lemma_later(a: Seq<char>, b: Seq<char>, c: Seq<char>)
    ensures
        later(a, a) == a,
        later(a, b) == later(b, a),
        later(later(a, b), c) == later(a, later(b, c)),
{
    lemma_precedes_total(a, a);
    lemma_precedes_total(a, b);
    lemma_precedes_total(b, a);
    lemma_precedes_total(b, c);
    lemma_precedes_total(a, c);
    if precedes(a, b) && precedes(b, c) {
        lemma_precedes_transitive(a, b, c);
    }
    if precedes(a, c) && precedes(c, b) {
        lemma_precedes_transitive(a, c, b);
    }
    lemma_precedes_total(c, b);
    lemma_precedes_total(c, a);
    if precedes(b, a) && precedes(a, c) {
        lemma_precedes_transitive(b, a, c);
    }
}

/// Merging records of one pair does not depend on the order they arrive in:
/// twice the same changes nothing, two commute, and three group either way.
pub proof fn merging_does_not_depend_on_arrival(a: DeclineText, b: DeclineText, c: DeclineText)
    requires
        a.a == b.a && b.a == c.a,
        a.b == b.b && b.b == c.b,
    ensures
        a.merged(a) == a,
        a.merged(b) == b.merged(a),
        a.merged(b).merged(c) == a.merged(b.merged(c)),
{
    lemma_later(a.declined_at, b.declined_at, c.declined_at);
    let x = a.cleared_at;
    let y = b.cleared_at;
    let z = c.cleared_at;
    if x is Some {
        lemma_later(x->0, x->0, x->0);
    }
    if x is Some && y is Some {
        lemma_later(x->0, y->0, y->0);
    }
    if x is Some && y is Some && z is Some {
        lemma_later(x->0, y->0, z->0);
    }
}

/// A refusal is taken back only by a later statement: merging in a record that
/// was never cleared leaves a refused pair refused.
pub proof fn a_refusal_survives_another(a: DeclineText, b: DeclineText)
    requires
        a.refuses(),
        b.cleared_at is None,
    ensures
        a.merged(b).refuses(),
{
    if let Some(cleared) = a.cleared_at {
        if precedes(a.declined_at, b.declined_at) && precedes(b.declined_at, cleared) {
            lemma_precedes_transitive(a.declined_at, b.declined_at, cleared);
        }
    }
}

/// A merged record holds the later of the two dates it was declined at, and the
/// later of those it was cleared at; where one was never cleared, the other's.
pub proof fn a_merge_holds_the_later_statements(a: DeclineText, b: DeclineText)
    ensures
        ({
            let m = a.merged(b);
            &&& m.a == a.a && m.b == a.b
            &&& m.declined_at == a.declined_at || m.declined_at == b.declined_at
            &&& !precedes(m.declined_at, a.declined_at) && !precedes(m.declined_at, b.declined_at)
            &&& b.cleared_at is None ==> m.cleared_at == a.cleared_at
            &&& a.cleared_at is None ==> m.cleared_at == b.cleared_at
            &&& a.cleared_at is Some && b.cleared_at is Some ==> {
                &&& m.cleared_at == a.cleared_at || m.cleared_at == b.cleared_at
                &&& !precedes(m.cleared_at->0, a.cleared_at->0)
                &&& !precedes(m.cleared_at->0, b.cleared_at->0)
            }
        }),
{
    lemma_precedes_total(a.declined_at, b.declined_at);
    lemma_precedes_total(a.declined_at, a.declined_at);
    lemma_precedes_total(b.declined_at, b.declined_at);
    if a.cleared_at is Some && b.cleared_at is Some {
        lemma_precedes_total(a.cleared_at->0, b.cleared_at->0);
        lemma_precedes_total(a.cleared_at->0, a.cleared_at->0);
        lemma_precedes_total(b.cleared_at->0, b.cleared_at->0);
    }
}

/// A pair is refused until it is cleared later than it was declined, and refused
/// again once it is declined as late as that.
pub proof fn the_later_statement_wins(record: DeclineText)
    ensures
        !record.refuses() <==> record.cleared_at is Some && precedes(
            record.declined_at,
            record.cleared_at->0,
        ),
{
}

} // verus!
