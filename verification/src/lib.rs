//! The rules a calendar and task planner is built on, with what each of them
//! answers stated as a contract and proved.

pub mod adapter;
pub mod attendee;
pub mod civil;
pub mod collation;
pub mod color;
pub mod conferencing;
pub mod conferencing_laws;
pub mod day_marker;
pub mod day_start;
pub mod day_start_laws;
pub mod envelope;
pub mod error;
pub mod event_anchor;
pub mod event_diff;
pub mod event_group;
pub mod event_group_fold;
pub mod event_local_reminders;
pub mod extras;
pub mod group_carry;
pub mod group_suggestion;
pub mod invitation;
pub mod meeting_events;
pub mod meeting_link_grouping;
pub mod order;
pub mod read_refusal;
pub mod recurrence;
pub mod recurrence_summary;
pub mod recurrence_summary_laws;
pub mod reminder;
pub mod rrule_parts;
pub mod series_clock;
pub mod series_shift;
pub mod series_shift_laws;
pub mod signatures;
pub mod spawn;
pub mod suggestion_decline;
pub mod task_assignment;
pub mod task_cascade;
pub mod task_collapse;
pub mod task_counts;
pub mod task_coverage;
pub mod task_day;
pub mod task_grouping;
pub mod task_rows_once;
pub mod task_tree;
pub mod task_turns;
pub mod text;
pub mod types;

pub use adapter::{
    AdapterSource, AuthToken, Capability, ChangeSet, Container, Credentials, Reminderable,
};
pub use collation::{compare_names, compare_titles, CollationLanguage};
pub use color::{ColorLabelId, ColorSource, ContainerColor};
pub use day_marker::{DayLog, DayMarker};
pub use error::Error;
pub use event_anchor::{plan_repairs, series_master_id, Anchored, Repair};
pub use event_group::{normalized_title, EventGroup, EventGroupMember};
pub use event_group_fold::{collapse_event_groups, CollapsedRow, FoldableEvent};
pub use event_local_reminders::EventLocalReminders;
pub use extras::{apply_task_extras, extras_for_task, recurrence_needs_extras, AperioExtras};
pub use group_carry::{
    carry_onto, future_carry_fields, occurrence_carry_fields, plan_carry, CarryField, CarryPlan,
    CarryTarget, CarryableFields,
};
pub use group_suggestion::{
    find_group_suggestions, is_meeting_calendar, suggest_group_mate, GroupSuggestion,
    SuggestibleEvent, MEETINGS_CALENDAR_SUFFIX,
};
pub use meeting_events::{
    join_url_of, meeting_join_url, without_duplicate_meetings, MeetingFilterEvent,
};
pub use meeting_link_grouping::{
    find_meeting_link_pairs, normalize_join_url, LinkableEvent, MeetingLinkPair,
};
pub use recurrence::{rrule_to_task_recurrence, task_recurrence_to_rrule};
pub use reminder::{Reminder, ReminderKind, SoundConfig, SoundSource};
pub use spawn::{advance, completion_record_for, next_recurrence_instance};
pub use suggestion_decline::SuggestionDecline;
pub use task_assignment::is_mine_or_unassigned;
pub use task_cascade::{
    auto_date_on_start, derive_status_from_children, plan_ancestor_recompute, plan_status_cascade,
    AutoDateInput, CascadeInput, CascadeOptions, CascadeTask, RecomputeInput, StatusWrite,
};
pub use task_day::{
    backlog_weeks, end_time_on_day, is_deadline_chip, split_deadlines_by_week, tasks_on_days,
    time_on_day, BacklogWeeks, BacklogWeeksInput, DayInput, DayTask, DayTaskRow, DeadlineSplit,
    DeadlineSplitInput,
};
pub use task_grouping::{
    group_tasks, is_task_deferred, GroupHead, GroupKind, GroupableTask, GroupingInput,
};
pub use types::{
    AttendeeResponse, AttendeeStatus, Calendar, Event, EventRecurrence, MonthDay, NewEvent,
    NewTask, RecurrenceAnchor, RecurrenceEnd, RecurrenceFrequency, RecurrencePlacement, Section,
    Task, TaskEffort, TaskList, TaskPriority, TaskRecurrence, TaskStatus, TaskUser, Weekday,
};
