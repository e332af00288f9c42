//! What every adapter shares: the values that cross its boundary, and the sound
//! an item or its container rings with.

use vstd::prelude::*;

use crate::civil::Instant;
use crate::reminder::{optional_sound, SoundConfig, SoundText};
use crate::types::{Calendar, Event, Task, TaskList};

verus! {

/// Stable identifier for the adapter source (e.g. "google", "caldav",
/// "vikunja").
///
/// Tagged onto every data object so the frontend can filter and show source
/// badges.
#[derive(Debug, Clone, PartialEq, Eq, Hash)]
pub struct AdapterSource(pub String);

impl AdapterSource {
    pub fn new(id: &str) -> (r: AdapterSource)
        ensures
            r.0@ == id@,
    {
        AdapterSource(id.to_owned())
    }

    pub fn as_str(&self) -> (r: &str)
        ensures
            r@ == self.0@,
    {
        self.0.as_str()
    }
}

/// Adapter capabilities. An adapter declares which features it has.
#[derive(Debug, Clone, Copy, PartialEq, Eq, Structural, Hash)]
pub enum Capability {
    Calendar,
    Tasks,
    Contacts,
}

/// One of the fields of [`Credentials`].
#[derive(Debug, Clone, PartialEq, Eq)]
pub struct CredentialField {
    pub key: String,
    pub value: String,
}

/// Credentials supplied when connecting. The concrete fields depend on the
/// auth scheme; each adapter documents the keys it expects.
#[derive(Debug, Clone, PartialEq, Eq, Default)]
pub struct Credentials {
    /// Key/value fields, each key once.
    pub fields: Vec<CredentialField>,
}

/// Adapter-managed token. The adapter stores it internally and does not require
/// the caller to pass it explicitly.
#[derive(Debug, Clone, PartialEq, Eq, Default)]
pub struct AuthToken {
    pub access_token: String,
    pub refresh_token: Option<String>,
    pub expires_at: Option<Instant>,
}

/// Result of an incremental ("delta") fetch.
///
/// The host applies it to its snapshot cache: upsert `changes`, drop
/// `deletions`, then persist `new_token` for the next round.
#[derive(Debug, Clone, PartialEq)]
pub struct ChangeSet<T> {
    /// Created or updated rows since the token.
    pub changes: Vec<T>,
    /// Native ids removed since the token.
    pub deletions: Vec<String>,
    /// Opaque token to pass back next time. `None`: the adapter cannot continue
    /// incrementally and the host should treat the next round as cold.
    pub new_token: Option<String>,
    /// `changes` is the full set; replace, don't merge.
    pub full_resync: bool,
    /// `changes` covers the adapter's ENTIRE collection, not merely the queried
    /// range, so the host may serve any range from the snapshot. Only consulted
    /// on a full-resync write.
    pub complete: bool,
}

/// Implemented by items that may carry reminders (events and tasks).
pub trait Reminderable {
    spec fn sound_of(&self) -> Option<SoundText>;

    /// Sound override at the item level; `None`: inherit from the container.
    fn sound_override(&self) -> (r: Option<&SoundConfig>)
        ensures
            borrowed_sound(r) == self.sound_of(),
    ;
}

/// What a borrowed sound holds.
pub open spec fn borrowed_sound(o: Option<&SoundConfig>) -> Option<SoundText> {
    match o {
        Some(s) => Some(s@),
        None => None,
    }
}

fn borrow_sound(o: &Option<SoundConfig>) -> (r: Option<&SoundConfig>)
    ensures
        borrowed_sound(r) == optional_sound(*o),
{
    match o {
        Some(s) => Some(s),
        None => None,
    }
}

impl Reminderable for Event {
    open spec fn sound_of(&self) -> Option<SoundText> {
        optional_sound(self.sound)
    }

    fn sound_override(&self) -> (r: Option<&SoundConfig>) {
        borrow_sound(&self.sound)
    }
}

impl Reminderable for Task {
    open spec fn sound_of(&self) -> Option<SoundText> {
        optional_sound(self.sound)
    }

    fn sound_override(&self) -> (r: Option<&SoundConfig>) {
        borrow_sound(&self.sound)
    }
}

/// Implemented by containers (calendars and task lists).
pub trait Container {
    spec fn sound_within(&self) -> Option<SoundText>;

    /// Default sound for all items in this container; `None`: fall back to the
    /// app-wide global default.
    fn default_sound(&self) -> (r: Option<&SoundConfig>)
        ensures
            borrowed_sound(r) == self.sound_within(),
    ;
}

impl Container for Calendar {
    open spec fn sound_within(&self) -> Option<SoundText> {
        optional_sound(self.default_sound)
    }

    fn default_sound(&self) -> (r: Option<&SoundConfig>) {
        borrow_sound(&self.default_sound)
    }
}

impl Container for TaskList {
    open spec fn sound_within(&self) -> Option<SoundText> {
        optional_sound(self.default_sound)
    }

    fn default_sound(&self) -> (r: Option<&SoundConfig>) {
        borrow_sound(&self.default_sound)
    }
}

} // verus!
