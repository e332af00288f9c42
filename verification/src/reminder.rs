//! Reminders and sound configuration.

use vstd::prelude::*;

use crate::civil::{Instant, Moment};

verus! {

/// A single reminder attached to an event or task.
///
/// An item may carry multiple reminders. Each reminder can override the
/// item-level sound.
#[derive(Debug, Clone, PartialEq, Eq)]
pub struct Reminder {
    pub kind: ReminderKind,
    /// When set, this reminder's sound overrides the item-level default.
    pub sound: Option<SoundConfig>,
}

#[derive(Debug, Clone, Copy, PartialEq, Eq)]
pub enum ReminderKind {
    /// Relative to the event start or task deadline.
    /// `minutes_before` may be negative to fire after the reference time.
    Relative { minutes_before: i64 },
    /// Fixed point in time, independent of the event.
    Absolute { at: Instant },
    /// Fires on the next app start after the due time.
    AppStart,
    /// E-mail reminder (delivered by the adapter where supported).
    Email { minutes_before: i64 },
}

/// Sound configuration for notifications, at the container level (calendar or
/// task list) and the item level (event or task) alike.
#[derive(Debug, Clone, PartialEq, Eq)]
pub struct SoundConfig {
    pub source: SoundSource,
    /// Volume 0-100, independent of the system volume.
    pub volume: u8,
}

#[derive(Debug, Clone, PartialEq, Eq)]
pub enum SoundSource {
    /// Platform default notification sound.
    System,
    /// Silent notification (visual only).
    Silent,
    /// User-supplied audio file, referenced by its content hash. The file
    /// itself lives in the sync asset store.
    Custom { sha256: String },
}

/// What a [`ReminderKind`] means.
pub enum KindText {
    Relative { minutes_before: int },
    Absolute { at: Moment },
    AppStart,
    Email { minutes_before: int },
}

impl View for ReminderKind {
    type V = KindText;

    open spec fn view(&self) -> KindText {
        match *self {
            ReminderKind::Relative { minutes_before } => KindText::Relative {
                minutes_before: minutes_before as int,
            },
            ReminderKind::Absolute { at } => KindText::Absolute { at: at@ },
            ReminderKind::AppStart => KindText::AppStart,
            ReminderKind::Email { minutes_before } => KindText::Email {
                minutes_before: minutes_before as int,
            },
        }
    }
}

impl ReminderKind {
    /// Whether two reminders ring alike.
    pub fn same_kind(&self, other: &ReminderKind) -> (r: bool)
        ensures
            r == (self@ == other@),
    {
        match (self, other) {
            (
                ReminderKind::Relative { minutes_before: a },
                ReminderKind::Relative { minutes_before: b },
            ) => *a == *b,
            (ReminderKind::Absolute { at: a }, ReminderKind::Absolute { at: b }) => a.same_instant(
                b,
            ),
            (ReminderKind::AppStart, ReminderKind::AppStart) => true,
            (
                ReminderKind::Email { minutes_before: a },
                ReminderKind::Email { minutes_before: b },
            ) => *a == *b,
            _ => false,
        }
    }

    /// Whether the reminder lives on this device only.
    pub fn is_app_start(&self) -> (r: bool)
        ensures
            r == (self@ is AppStart),
    {
        match self {
            ReminderKind::AppStart => true,
            _ => false,
        }
    }
}

/// What a [`SoundSource`] means.
pub enum SourceText {
    System,
    Silent,
    Custom { sha256: Seq<char> },
}

/// What a [`SoundConfig`] holds.
pub struct SoundText {
    pub source: SourceText,
    pub volume: int,
}

impl View for SoundConfig {
    type V = SoundText;

    open spec fn view(&self) -> SoundText {
        SoundText {
            source: match self.source {
                SoundSource::System => SourceText::System,
                SoundSource::Silent => SourceText::Silent,
                SoundSource::Custom { sha256 } => SourceText::Custom { sha256: sha256@ },
            },
            volume: self.volume as int,
        }
    }
}

/// What an optional sound holds.
pub open spec fn optional_sound(o: Option<SoundConfig>) -> Option<SoundText> {
    match o {
        Some(s) => Some(s@),
        None => None,
    }
}

impl Default for SoundConfig {
    fn default() -> (r: SoundConfig)
        ensures
            r@ == (SoundText { source: SourceText::System, volume: 80 }),
    {
        SoundConfig { source: SoundSource::System, volume: 80 }
    }
}

impl SoundConfig {
    pub(crate) fn copy(&self) -> (r: SoundConfig)
        ensures
            r@ == self@,
    {
        let source = match &self.source {
            SoundSource::System => SoundSource::System,
            SoundSource::Silent => SoundSource::Silent,
            SoundSource::Custom { sha256 } => SoundSource::Custom { sha256: sha256.clone() },
        };
        SoundConfig { source, volume: self.volume }
    }
}

pub(crate) fn copy_sound(o: &Option<SoundConfig>) -> (r: Option<SoundConfig>)
    ensures
        optional_sound(r) == optional_sound(*o),
{
    match o {
        Some(s) => Some(s.copy()),
        None => None,
    }
}

/// What a [`Reminder`] holds.
pub struct ReminderText {
    pub kind: KindText,
    pub sound: Option<SoundText>,
}

impl View for Reminder {
    type V = ReminderText;

    open spec fn view(&self) -> ReminderText {
        ReminderText { kind: self.kind@, sound: optional_sound(self.sound) }
    }
}

/// What a list of reminders holds.
pub open spec fn reminder_texts(list: Seq<Reminder>) -> Seq<ReminderText> {
    Seq::new(list.len(), |i: int| list[i]@)
}

impl Reminder {
    pub(crate) fn copy(&self) -> (r: Reminder)
        ensures
            r@ == self@,
    {
        Reminder { kind: self.kind, sound: copy_sound(&self.sound) }
    }
}

pub(crate) fn copy_reminders(list: &[Reminder]) -> (r: Vec<Reminder>)
    ensures
        reminder_texts(r@) == reminder_texts(list@),
{
    let mut out: Vec<Reminder> = Vec::new();
    let mut i: usize = 0;
    while i < list.len()
        invariant
            i <= list.len(),
            out@.len() == i,
            forall|k: int| 0 <= k < i ==> (#[trigger] out@[k])@ == list@[k]@,
        decreases list.len() - i,
    {
        out.push(list[i].copy());
        i = i + 1;
    }
    assert(reminder_texts(out@) =~= reminder_texts(list@));
    out
}

} // verus!
