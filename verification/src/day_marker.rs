//! Day markers: a user-defined vocabulary of things worth noting about a DAY,
//! and one record per day saying which of them applied.
//!
//! This is deliberately its own small domain rather than a reuse of tasks. A
//! task has one status; this needs one per marker and day. What is being
//! described is a property of the date, so it lives on the date.

use vstd::prelude::*;

use crate::civil::{Date, Instant};
use crate::color::ColorLabelId;

verus! {

/// One entry in the vocabulary the user can tick a day with.
#[derive(Debug, Clone, PartialEq, Eq)]
pub struct DayMarker {
    pub id: String,
    /// Whatever the user wants it to be: a word, a sentence, an emoji.
    pub name: String,
    /// Short stand-in for the dense views (typically one emoji). `None`: the
    /// summaries fall back to the name.
    pub symbol: Option<String>,
    /// Reuses the app-wide colour vocabulary. `None`: no colour of its own.
    pub color_label: Option<ColorLabelId>,
    /// User-chosen order. Readers sort by this, so the list reads back the way
    /// it was built.
    pub position: i64,
    pub created_at: Instant,
    pub updated_at: Instant,
}

/// What a single day was marked with.
///
/// `markers` holds [`DayMarker::id`]s. Ids that no longer resolve are dropped
/// by the readers rather than repaired.
#[derive(Debug, Clone, PartialEq, Eq)]
pub struct DayLog {
    /// The LOCAL calendar day.
    pub day: Date,
    pub markers: Vec<String>,
    /// Room for a later "how was today" scale. Every reader treats `None` as
    /// absent.
    pub rating: Option<i64>,
    pub updated_at: Instant,
}

impl DayLog {
    /// Whether a day says nothing.
    pub open spec fn says_nothing(self) -> bool {
        self.markers@.len() == 0 && self.rating is None
    }

    /// An untouched day. Reads exactly like a stored row with nothing ticked,
    /// so callers never branch on "was there a row".
    ///
    /// `now` is a parameter because nothing here reads a clock. The stamp is
    /// carried at all because a log has to be able to travel back to the store
    /// unchanged; callers that write pass the same instant they write with.
    pub fn empty(day: Date, now: Instant) -> (r: DayLog)
        ensures
            r.day == day,
            r.updated_at == now,
            r.says_nothing(),
    {
        DayLog { day, markers: Vec::new(), rating: None, updated_at: now }
    }

    /// Whether this day says anything at all: the test every summary uses
    /// before rendering itself.
    pub fn is_empty(&self) -> (r: bool)
        ensures
            r == self.says_nothing(),
    {
        self.markers.len() == 0 && self.rating.is_none()
    }
}

} // verus!
