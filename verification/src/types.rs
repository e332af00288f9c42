//! The data the rules read and write.

use vstd::prelude::*;

use crate::civil::{optional_day, Date, Instant, Moment, TimeOfDay, Ymd};
use crate::color::{copy_label, optional_label, ColorLabelId};
use crate::event_diff::EventField;
use crate::reminder::{
    copy_reminders, copy_sound, optional_sound, reminder_texts, Reminder, ReminderText, SoundConfig,
    SoundText,
};
use crate::text::{copy_optional, copy_texts, optional_text, texts};

verus! {

/// A day of the week.
#[derive(Clone, Copy, PartialEq, Eq, Structural, Debug, Hash)]
pub enum Weekday {
    Monday,
    Tuesday,
    Wednesday,
    Thursday,
    Friday,
    Saturday,
    Sunday,
}

impl Weekday {
    /// The day's place in the week, Monday being 0.
    pub open spec fn place(self) -> int {
        match self {
            Weekday::Monday => 0,
            Weekday::Tuesday => 1,
            Weekday::Wednesday => 2,
            Weekday::Thursday => 3,
            Weekday::Friday => 4,
            Weekday::Saturday => 5,
            Weekday::Sunday => 6,
        }
    }

    pub fn days_from_monday(self) -> (r: u32)
        ensures
            r == self.place(),
            r < 7,
    {
        match self {
            Weekday::Monday => 0,
            Weekday::Tuesday => 1,
            Weekday::Wednesday => 2,
            Weekday::Thursday => 3,
            Weekday::Friday => 4,
            Weekday::Saturday => 5,
            Weekday::Sunday => 6,
        }
    }
}

/// The day at a place in the week, Monday being 0.
pub open spec fn weekday_at(place: int) -> Weekday {
    if place == 0 {
        Weekday::Monday
    } else if place == 1 {
        Weekday::Tuesday
    } else if place == 2 {
        Weekday::Wednesday
    } else if place == 3 {
        Weekday::Thursday
    } else if place == 4 {
        Weekday::Friday
    } else if place == 5 {
        Weekday::Saturday
    } else {
        Weekday::Sunday
    }
}

pub fn weekday_from_monday(place: u32) -> (r: Weekday)
    ensures
        r == weekday_at(place as int),
        place < 7 ==> r.place() == place,
{
    if place == 0 {
        Weekday::Monday
    } else if place == 1 {
        Weekday::Tuesday
    } else if place == 2 {
        Weekday::Wednesday
    } else if place == 3 {
        Weekday::Thursday
    } else if place == 4 {
        Weekday::Friday
    } else if place == 5 {
        Weekday::Saturday
    } else {
        Weekday::Sunday
    }
}

/// How often a task recurs.
#[derive(Clone, Copy, PartialEq, Eq, Structural, Debug, Hash)]
pub enum RecurrenceFrequency {
    Daily,
    Weekly,
    Monthly,
    Yearly,
}

/// When a recurrence ends.
#[derive(Clone, Copy, PartialEq, Eq, Structural, Debug)]
pub enum RecurrenceEnd {
    Never,
    After { occurrences: u32 },
    OnDate { date: Date },
}

/// What the next turn is counted from.
#[derive(Clone, Copy, PartialEq, Eq, Structural, Debug)]
pub enum RecurrenceAnchor {
    /// The date the task was planned for.
    FromDate,
    /// The day the task was done.
    FromCompletion,
}

/// Where the next turn goes.
#[derive(Clone, Copy, PartialEq, Eq, Structural, Debug)]
pub enum RecurrencePlacement {
    /// Onto its date.
    Schedule,
    /// Into the backlog, undated.
    Backlog,
}

/// A day of the year.
#[derive(Clone, Copy, PartialEq, Eq, Structural, Debug)]
pub struct MonthDay {
    pub month: u8,
    pub day: u8,
}

/// How a task recurs.
#[derive(Clone, Debug, PartialEq, Eq)]
pub struct TaskRecurrence {
    pub frequency: RecurrenceFrequency,
    pub interval: u32,
    pub day_of_week: Option<Vec<Weekday>>,
    pub day_of_month: Option<u8>,
    pub end: Option<RecurrenceEnd>,
    pub anchor: RecurrenceAnchor,
    pub placement: RecurrencePlacement,
    pub fixed_dates: Option<Vec<MonthDay>>,
}

/// What a [`RecurrenceEnd`] means.
pub enum EndRule {
    Never,
    After { occurrences: u32 },
    OnDate { date: Ymd },
}

impl View for RecurrenceEnd {
    type V = EndRule;

    open spec fn view(&self) -> EndRule {
        match *self {
            RecurrenceEnd::Never => EndRule::Never,
            RecurrenceEnd::After { occurrences } => EndRule::After { occurrences },
            RecurrenceEnd::OnDate { date } => EndRule::OnDate { date: date@ },
        }
    }
}

/// What an optional end means.
pub open spec fn optional_end(end: Option<RecurrenceEnd>) -> Option<EndRule> {
    match end {
        Some(e) => Some(e@),
        None => None,
    }
}

/// What an optional list holds.
pub open spec fn optional_list<T>(list: Option<Vec<T>>) -> Option<Seq<T>> {
    match list {
        Some(v) => Some(v@),
        None => None,
    }
}

/// What a [`TaskRecurrence`] means.
pub struct TaskRule {
    pub frequency: RecurrenceFrequency,
    pub interval: u32,
    pub day_of_week: Option<Seq<Weekday>>,
    pub day_of_month: Option<u8>,
    pub end: Option<EndRule>,
    pub anchor: RecurrenceAnchor,
    pub placement: RecurrencePlacement,
    pub fixed_dates: Option<Seq<MonthDay>>,
}

impl View for TaskRecurrence {
    type V = TaskRule;

    open spec fn view(&self) -> TaskRule {
        TaskRule {
            frequency: self.frequency,
            interval: self.interval,
            day_of_week: optional_list(self.day_of_week),
            day_of_month: self.day_of_month,
            end: optional_end(self.end),
            anchor: self.anchor,
            placement: self.placement,
            fixed_dates: optional_list(self.fixed_dates),
        }
    }
}

/// Where a task stands.
#[derive(Clone, Copy, PartialEq, Eq, Structural, Debug, Hash)]
pub enum TaskStatus {
    Open,
    InProgress,
    Completed,
    Cancelled,
}

impl TaskStatus {
    /// Done or given up: nothing more is to be done.
    pub open spec fn terminal(self) -> bool {
        self is Completed || self is Cancelled
    }

    pub fn is_terminal(self) -> (r: bool)
        ensures
            r == self.terminal(),
    {
        match self {
            TaskStatus::Completed | TaskStatus::Cancelled => true,
            TaskStatus::Open | TaskStatus::InProgress => false,
        }
    }
}

/// Somebody a task can be assigned to.
#[derive(Clone, Debug, PartialEq, Eq)]
pub struct TaskUser {
    pub id: String,
    pub name: String,
    pub email: Option<String>,
}

/// How many people a list can hold on one task.
#[derive(Clone, Copy, PartialEq, Eq, Structural, Debug)]
pub enum TaskAssignment {
    /// Nobody can be assigned.
    Unassignable,
    Single,
    Multiple,
}

impl Default for TaskAssignment {
    fn default() -> (r: TaskAssignment)
        ensures
            r == TaskAssignment::Unassignable,
    {
        TaskAssignment::Unassignable
    }
}

/// A section of a task list.
#[derive(Clone, Debug, PartialEq, Eq)]
pub struct Section {
    pub id: String,
    pub name: String,
}

/// What a [`TaskUser`] holds.
pub struct UserText {
    pub id: Seq<char>,
    pub name: Seq<char>,
    pub email: Option<Seq<char>>,
}

impl View for TaskUser {
    type V = UserText;

    open spec fn view(&self) -> UserText {
        UserText { id: self.id@, name: self.name@, email: optional_text(self.email) }
    }
}

/// What a list of users holds.
pub open spec fn user_texts(list: Seq<TaskUser>) -> Seq<UserText> {
    Seq::new(list.len(), |i: int| list[i]@)
}

pub(crate) fn copy_users(list: &[TaskUser]) -> (r: Vec<TaskUser>)
    ensures
        user_texts(r@) == user_texts(list@),
{
    let mut out: Vec<TaskUser> = Vec::new();
    let mut i: usize = 0;
    while i < list.len()
        invariant
            i <= list.len(),
            out@.len() == i,
            forall|k: int| 0 <= k < i ==> (#[trigger] out@[k])@ == list@[k]@,
        decreases list.len() - i,
    {
        out.push(
            TaskUser {
                id: list[i].id.clone(),
                name: list[i].name.clone(),
                email: copy_optional(&list[i].email),
            },
        );
        i = i + 1;
    }
    assert(user_texts(out@) =~= user_texts(list@));
    out
}

pub(crate) fn copy_list<T: Copy>(list: &[T]) -> (r: Vec<T>)
    ensures
        r@ == list@,
{
    let mut out: Vec<T> = Vec::new();
    let mut i: usize = 0;
    while i < list.len()
        invariant
            i <= list.len(),
            out@ == list@.take(i as int),
        decreases list.len() - i,
    {
        out.push(list[i]);
        i = i + 1;
        assert(out@ =~= list@.take(i as int));
    }
    assert(out@ =~= list@);
    out
}

fn copy_optional_list<T: Copy>(o: &Option<Vec<T>>) -> (r: Option<Vec<T>>)
    ensures
        optional_list(r) == optional_list(*o),
{
    match o {
        Some(list) => Some(copy_list(list.as_slice())),
        None => None,
    }
}

impl TaskRecurrence {
    pub(crate) fn copy(&self) -> (r: TaskRecurrence)
        ensures
            r@ == self@,
    {
        TaskRecurrence {
            frequency: self.frequency,
            interval: self.interval,
            day_of_week: copy_optional_list(&self.day_of_week),
            day_of_month: self.day_of_month,
            end: self.end,
            anchor: self.anchor,
            placement: self.placement,
            fixed_dates: copy_optional_list(&self.fixed_dates),
        }
    }
}

/// What an optional rule means.
pub open spec fn optional_rule(o: Option<TaskRecurrence>) -> Option<TaskRule> {
    match o {
        Some(rule) => Some(rule@),
        None => None,
    }
}

/// How much a task matters.
#[derive(Clone, Copy, PartialEq, Eq, Structural, Debug, Hash)]
pub enum TaskPriority {
    Low,
    Medium,
    High,
}

/// How much work a task is.
#[derive(Clone, Copy, PartialEq, Eq, Structural, Debug, Hash)]
pub enum TaskEffort {
    Small,
    Medium,
    Large,
}

/// A task.
#[derive(Clone, Debug, PartialEq, Eq)]
pub struct Task {
    pub id: String,
    pub list_id: String,
    pub title: String,
    pub description: Option<String>,
    pub status: TaskStatus,
    pub priority: TaskPriority,
    pub effort: TaskEffort,
    pub scheduled_date: Option<Date>,
    pub scheduled_time: Option<TimeOfDay>,
    pub scheduled_end_time: Option<TimeOfDay>,
    pub deadline_date: Option<Date>,
    pub deadline_time: Option<TimeOfDay>,
    pub deadline_reminder_days: Option<u32>,
    pub recurrence: Option<TaskRecurrence>,
    /// When an undated task comes back into the active backlog.
    pub resurface_date: Option<Date>,
    /// The series of recurring turns the task belongs to.
    pub series_id: Option<String>,
    pub parent_id: Option<String>,
    pub section_id: Option<String>,
    pub color_label: Option<ColorLabelId>,
    pub reminders: Vec<Reminder>,
    /// Sound override; absent, the list's default counts.
    pub sound: Option<SoundConfig>,
    pub assignees: Vec<TaskUser>,
    pub created_at: Instant,
    pub updated_at: Instant,
    pub completed_at: Option<Instant>,
    pub etag: Option<String>,
}

/// A task to be created.
#[derive(Clone, Debug, PartialEq, Eq)]
pub struct NewTask {
    pub title: String,
    pub description: Option<String>,
    pub status: TaskStatus,
    pub priority: TaskPriority,
    pub effort: TaskEffort,
    pub scheduled_date: Option<Date>,
    pub scheduled_time: Option<TimeOfDay>,
    pub scheduled_end_time: Option<TimeOfDay>,
    pub deadline_date: Option<Date>,
    pub deadline_time: Option<TimeOfDay>,
    pub deadline_reminder_days: Option<u32>,
    pub recurrence: Option<TaskRecurrence>,
    pub resurface_date: Option<Date>,
    pub series_id: Option<String>,
    pub parent_id: Option<String>,
    pub section_id: Option<String>,
    pub color_label: Option<ColorLabelId>,
    pub reminders: Vec<Reminder>,
    pub sound: Option<SoundConfig>,
    pub assignees: Vec<TaskUser>,
}

/// What a [`NewTask`] holds.
#[verifier::ext_equal]
pub struct NewTaskText {
    pub title: Seq<char>,
    pub description: Option<Seq<char>>,
    pub status: TaskStatus,
    pub priority: TaskPriority,
    pub effort: TaskEffort,
    pub scheduled_date: Option<Ymd>,
    pub scheduled_time: Option<TimeOfDay>,
    pub scheduled_end_time: Option<TimeOfDay>,
    pub deadline_date: Option<Ymd>,
    pub deadline_time: Option<TimeOfDay>,
    pub deadline_reminder_days: Option<u32>,
    pub recurrence: Option<TaskRule>,
    pub resurface_date: Option<Ymd>,
    pub series_id: Option<Seq<char>>,
    pub parent_id: Option<Seq<char>>,
    pub section_id: Option<Seq<char>>,
    pub color_label: Option<Seq<char>>,
    pub reminders: Seq<ReminderText>,
    pub sound: Option<SoundText>,
    pub assignees: Seq<UserText>,
}

impl View for NewTask {
    type V = NewTaskText;

    open spec fn view(&self) -> NewTaskText {
        NewTaskText {
            title: self.title@,
            description: optional_text(self.description),
            status: self.status,
            priority: self.priority,
            effort: self.effort,
            scheduled_date: optional_day(self.scheduled_date),
            scheduled_time: self.scheduled_time,
            scheduled_end_time: self.scheduled_end_time,
            deadline_date: optional_day(self.deadline_date),
            deadline_time: self.deadline_time,
            deadline_reminder_days: self.deadline_reminder_days,
            recurrence: optional_rule(self.recurrence),
            resurface_date: optional_day(self.resurface_date),
            series_id: optional_text(self.series_id),
            parent_id: optional_text(self.parent_id),
            section_id: optional_text(self.section_id),
            color_label: optional_label(self.color_label),
            reminders: reminder_texts(self.reminders@),
            sound: optional_sound(self.sound),
            assignees: user_texts(self.assignees@),
        }
    }
}

/// A list of tasks.
#[derive(Clone, Debug, PartialEq, Eq)]
pub struct TaskList {
    pub id: String,
    pub name: String,
    /// The sound of its tasks; absent, the app-wide default counts.
    pub default_sound: Option<SoundConfig>,
}

/// A calendar.
#[derive(Clone, Debug, PartialEq, Eq)]
pub struct Calendar {
    pub id: String,
    pub name: String,
    /// The sound of its events; absent, the app-wide default counts.
    pub default_sound: Option<SoundConfig>,
}

// ---------------------------------------------------------------------------
// Events
// ---------------------------------------------------------------------------

/// What an invitee answered.
#[derive(Clone, Copy, PartialEq, Eq, Structural, Debug, Hash)]
pub enum AttendeeStatus {
    NeedsAction,
    Accepted,
    Declined,
    Tentative,
}

/// One invitee's answer.
#[derive(Clone, Debug, PartialEq, Eq)]
pub struct AttendeeResponse {
    pub email: String,
    pub name: Option<String>,
    pub status: AttendeeStatus,
}

/// What an [`AttendeeResponse`] holds.
pub struct ResponseText {
    pub email: Seq<char>,
    pub name: Option<Seq<char>>,
    pub status: AttendeeStatus,
}

impl View for AttendeeResponse {
    type V = ResponseText;

    open spec fn view(&self) -> ResponseText {
        ResponseText {
            email: self.email@,
            name: optional_text(self.name),
            status: self.status,
        }
    }
}

/// What a list of answers holds.
pub open spec fn response_texts(list: Seq<AttendeeResponse>) -> Seq<ResponseText> {
    Seq::new(list.len(), |i: int| list[i]@)
}

impl AttendeeResponse {
    pub(crate) fn copy(&self) -> (r: AttendeeResponse)
        ensures
            r@ == self@,
    {
        AttendeeResponse {
            email: self.email.clone(),
            name: copy_optional(&self.name),
            status: self.status,
        }
    }
}

fn copy_responses(list: &[AttendeeResponse]) -> (r: Vec<AttendeeResponse>)
    ensures
        response_texts(r@) == response_texts(list@),
{
    let mut out: Vec<AttendeeResponse> = Vec::new();
    let mut i: usize = 0;
    while i < list.len()
        invariant
            i <= list.len(),
            out@.len() == i,
            forall|k: int| 0 <= k < i ==> (#[trigger] out@[k])@ == list@[k]@,
        decreases list.len() - i,
    {
        out.push(list[i].copy());
        i = i + 1;
    }
    assert(response_texts(out@) =~= response_texts(list@));
    out
}

/// How an event recurs: its rule, the occurrences left out, and the zone its
/// clock goes by.
#[derive(Clone, Debug, PartialEq, Eq)]
pub struct EventRecurrence {
    pub rrule: String,
    pub exceptions: Vec<Instant>,
    pub tzid: Option<String>,
}

/// What a list of instants means.
pub open spec fn moments(list: Seq<Instant>) -> Seq<Moment> {
    Seq::new(list.len(), |i: int| list[i]@)
}

/// What an [`EventRecurrence`] holds.
pub struct EventRule {
    pub rrule: Seq<char>,
    pub exceptions: Seq<Moment>,
    pub tzid: Option<Seq<char>>,
}

impl View for EventRecurrence {
    type V = EventRule;

    open spec fn view(&self) -> EventRule {
        EventRule {
            rrule: self.rrule@,
            exceptions: moments(self.exceptions@),
            tzid: optional_text(self.tzid),
        }
    }
}

/// What an optional recurrence holds.
pub open spec fn optional_event_rule(o: Option<EventRecurrence>) -> Option<EventRule> {
    match o {
        Some(rule) => Some(rule@),
        None => None,
    }
}

/// An event.
#[derive(Clone, Debug, PartialEq, Eq)]
pub struct Event {
    pub id: String,
    pub calendar_id: String,
    pub title: String,
    pub description: Option<String>,
    pub location: Option<String>,
    pub start: Instant,
    pub end: Instant,
    pub all_day: bool,
    pub recurrence: Option<EventRecurrence>,
    pub color_label: Option<ColorLabelId>,
    pub color_hex: Option<String>,
    pub reminders: Vec<Reminder>,
    /// Sound override; absent, the calendar's default counts.
    pub sound: Option<SoundConfig>,
    /// The invitees, in the editable form.
    pub attendees: Vec<String>,
    /// Tell the invitees about the write.
    pub send_invitations: bool,
    pub truncate_tail_overrides: bool,
    /// The edit left the invitees alone: the provider's list stays as it is.
    pub keep_attendees: bool,
    /// The fields the edit left alone, where the provider's value stays.
    pub keep_fields: Vec<EventField>,
    /// The edit removed every invitee: the list is written empty.
    pub clear_attendees: bool,
    pub created_at: Instant,
    pub updated_at: Instant,
    pub etag: Option<String>,
    pub organizer: Option<String>,
    /// Someone other than the connected account organizes the event.
    pub organized_elsewhere: bool,
    pub attendee_responses: Vec<AttendeeResponse>,
    pub cancelled: bool,
    pub scheduling_silenced: bool,
}

/// What an [`Event`] holds.
#[verifier::ext_equal]
pub struct EventText {
    pub id: Seq<char>,
    pub calendar_id: Seq<char>,
    pub title: Seq<char>,
    pub description: Option<Seq<char>>,
    pub location: Option<Seq<char>>,
    pub start: Moment,
    pub end: Moment,
    pub all_day: bool,
    pub recurrence: Option<EventRule>,
    pub color_label: Option<Seq<char>>,
    pub color_hex: Option<Seq<char>>,
    pub reminders: Seq<ReminderText>,
    pub sound: Option<SoundText>,
    pub attendees: Seq<Seq<char>>,
    pub send_invitations: bool,
    pub truncate_tail_overrides: bool,
    pub keep_attendees: bool,
    pub keep_fields: Seq<EventField>,
    pub clear_attendees: bool,
    pub created_at: Moment,
    pub updated_at: Moment,
    pub etag: Option<Seq<char>>,
    pub organizer: Option<Seq<char>>,
    pub organized_elsewhere: bool,
    pub attendee_responses: Seq<ResponseText>,
    pub cancelled: bool,
    pub scheduling_silenced: bool,
}

impl View for Event {
    type V = EventText;

    open spec fn view(&self) -> EventText {
        EventText {
            id: self.id@,
            calendar_id: self.calendar_id@,
            title: self.title@,
            description: optional_text(self.description),
            location: optional_text(self.location),
            start: self.start@,
            end: self.end@,
            all_day: self.all_day,
            recurrence: optional_event_rule(self.recurrence),
            color_label: optional_label(self.color_label),
            color_hex: optional_text(self.color_hex),
            reminders: reminder_texts(self.reminders@),
            sound: optional_sound(self.sound),
            attendees: texts(self.attendees@),
            send_invitations: self.send_invitations,
            truncate_tail_overrides: self.truncate_tail_overrides,
            keep_attendees: self.keep_attendees,
            keep_fields: self.keep_fields@,
            clear_attendees: self.clear_attendees,
            created_at: self.created_at@,
            updated_at: self.updated_at@,
            etag: optional_text(self.etag),
            organizer: optional_text(self.organizer),
            organized_elsewhere: self.organized_elsewhere,
            attendee_responses: response_texts(self.attendee_responses@),
            cancelled: self.cancelled,
            scheduling_silenced: self.scheduling_silenced,
        }
    }
}

impl Event {
    pub(crate) fn copy(&self) -> (r: Event)
        ensures
            r@ == self@,
    {
        let recurrence = match &self.recurrence {
            Some(rule) => Some(
                EventRecurrence {
                    rrule: rule.rrule.clone(),
                    exceptions: copy_list(rule.exceptions.as_slice()),
                    tzid: copy_optional(&rule.tzid),
                },
            ),
            None => None,
        };
        assert(optional_event_rule(recurrence) == optional_event_rule(self.recurrence));
        Event {
            id: self.id.clone(),
            calendar_id: self.calendar_id.clone(),
            title: self.title.clone(),
            description: copy_optional(&self.description),
            location: copy_optional(&self.location),
            start: self.start,
            end: self.end,
            all_day: self.all_day,
            recurrence,
            color_label: copy_label(&self.color_label),
            color_hex: copy_optional(&self.color_hex),
            reminders: copy_reminders(self.reminders.as_slice()),
            sound: copy_sound(&self.sound),
            attendees: copy_texts(self.attendees.as_slice()),
            send_invitations: self.send_invitations,
            truncate_tail_overrides: self.truncate_tail_overrides,
            keep_attendees: self.keep_attendees,
            keep_fields: copy_list(self.keep_fields.as_slice()),
            clear_attendees: self.clear_attendees,
            created_at: self.created_at,
            updated_at: self.updated_at,
            etag: copy_optional(&self.etag),
            organizer: copy_optional(&self.organizer),
            organized_elsewhere: self.organized_elsewhere,
            attendee_responses: copy_responses(self.attendee_responses.as_slice()),
            cancelled: self.cancelled,
            scheduling_silenced: self.scheduling_silenced,
        }
    }
}

/// An event to be created.
#[derive(Clone, Debug, PartialEq, Eq)]
pub struct NewEvent {
    pub title: String,
    pub description: Option<String>,
    pub location: Option<String>,
    pub start: Instant,
    pub end: Instant,
    pub all_day: bool,
    pub recurrence: Option<EventRecurrence>,
    pub color_label: Option<ColorLabelId>,
    pub color_hex: Option<String>,
    pub reminders: Vec<Reminder>,
    pub sound: Option<SoundConfig>,
    pub attendees: Vec<String>,
    pub send_invitations: bool,
    /// The organizer of the event this one was made from.
    pub organizer: Option<String>,
    /// Someone other than the connected account organized that event.
    pub organized_elsewhere: bool,
}

/// What a [`NewEvent`] holds.
#[verifier::ext_equal]
pub struct NewEventText {
    pub title: Seq<char>,
    pub description: Option<Seq<char>>,
    pub location: Option<Seq<char>>,
    pub start: Moment,
    pub end: Moment,
    pub all_day: bool,
    pub recurrence: Option<EventRule>,
    pub color_label: Option<Seq<char>>,
    pub color_hex: Option<Seq<char>>,
    pub reminders: Seq<ReminderText>,
    pub sound: Option<SoundText>,
    pub attendees: Seq<Seq<char>>,
    pub send_invitations: bool,
    pub organizer: Option<Seq<char>>,
    pub organized_elsewhere: bool,
}

impl View for NewEvent {
    type V = NewEventText;

    open spec fn view(&self) -> NewEventText {
        NewEventText {
            title: self.title@,
            description: optional_text(self.description),
            location: optional_text(self.location),
            start: self.start@,
            end: self.end@,
            all_day: self.all_day,
            recurrence: optional_event_rule(self.recurrence),
            color_label: optional_label(self.color_label),
            color_hex: optional_text(self.color_hex),
            reminders: reminder_texts(self.reminders@),
            sound: optional_sound(self.sound),
            attendees: texts(self.attendees@),
            send_invitations: self.send_invitations,
            organizer: optional_text(self.organizer),
            organized_elsewhere: self.organized_elsewhere,
        }
    }
}

} // verus!
