//! Reminders kept for one event that no provider is told about.
//!
//! A reminder normally rides ON the event, so every client of the calendar
//! rings. These do not: they travel between the user's own devices and reach
//! nobody else on a shared calendar.

use vstd::prelude::*;

use crate::reminder::Reminder;

verus! {

/// One event's private reminders.
#[derive(Debug, Clone, PartialEq, Eq)]
pub struct EventLocalReminders {
    pub calendar_id: String,
    /// Series master id: a recurring appointment is reminded of as a series,
    /// exactly as its own reminders are.
    pub event_id: String,
    /// An empty list is a decision ("none of my own here"), not an absence:
    /// the row stays so a peer that has not heard yet has something to lose
    /// against.
    pub reminders: Vec<Reminder>,
    /// The title the event had when this was set. Half of the SIGNATURE, and
    /// never shown.
    pub title: String,
    /// The start it had then. The other half.
    pub starts_at: String,
    pub updated_at: String,
}

impl EventLocalReminders {
    /// Whether this row asks for anything at all.
    pub fn is_empty(&self) -> (r: bool)
        ensures
            r == (self.reminders@.len() == 0),
    {
        self.reminders.len() == 0
    }
}

} // verus!
