//! On-demand and backlog recurrence spawning.
//!
//! Pure computation: given a completed recurring task, work out what its next
//! instance should look like: dated (`Schedule`) or undated-with-resurface
//! (`Backlog`), advanced by frequency and interval or by the next `fixed_dates`
//! trigger. No I/O, no idempotency: the caller decides whether to actually
//! create the result.

use vstd::prelude::*;

use crate::civil::{
    add_days, day_at, day_numbers_follow_the_calendar, days_from_monday, days_in_month,
    every_number_has_a_day, first_day_number, last_day_number, lemma_day_bounds,
    lemma_number_bounds, month_length, moved_day, optional_day, plus_months, Date, Ymd, FIRST_YEAR, LAST_YEAR,
};
use crate::color::{copy_label, optional_label};
use crate::reminder::{copy_reminders, copy_sound, optional_sound, reminder_texts, Reminder};
use crate::text::{copy_optional, optional_text};
use crate::types::{
    copy_users, user_texts, EndRule, MonthDay, NewTask, NewTaskText, RecurrenceAnchor,
    RecurrenceEnd, RecurrenceFrequency, RecurrencePlacement, Task, TaskRecurrence, TaskRule,
    TaskStatus, TaskUser, UserText, Weekday,
};

verus! {

// ---------------------------------------------------------------------------
// Advancing a date
// ---------------------------------------------------------------------------

/// How many steps a rule takes at once: its interval, but at least one.
pub open spec fn stride(interval: u32) -> int {
    if interval == 0 {
        1
    } else {
        interval as int
    }
}

/// A day of a month, or the month's last one where it is shorter. There is no
/// day 0.
pub open spec fn clamped(year: int, month: int, day: int) -> Option<Ymd> {
    let last = days_in_month(year, month);
    let date = Ymd { year, month, day: if day > last { last } else { day } };
    if date.valid() {
        Some(date)
    } else {
        None
    }
}

/// The earliest place in the week after `above` among some weekdays.
pub open spec fn least_after(days: Seq<Weekday>, above: int) -> Option<int>
    decreases days.len(),
{
    if days.len() == 0 {
        None
    } else {
        let before = least_after(days.drop_last(), above);
        let place = days.last().place();
        if place > above && match before {
            Some(p) => place < p,
            None => true,
        } {
            Some(place)
        } else {
            before
        }
    }
}

/// The next listed weekday after a day: within the day's own week if one is
/// left there, otherwise the first listed day of the week `weeks` later. Weeks
/// start on Monday.
pub open spec fn next_weekday(anchor: Ymd, days: Seq<Weekday>, weeks: int) -> Option<Ymd> {
    let place = anchor.weekday();
    if anchor.number() - place < first_day_number() {
        None
    } else {
        match least_after(days, place) {
            Some(p) => moved_day(anchor, p - place),
            None => match least_after(days, -1) {
                Some(first) => moved_day(anchor, 7 * weeks - place + first),
                None => None,
            },
        }
    }
}

/// The next occurrence of a rule after a date.
pub open spec fn advanced(anchor: Ymd, rule: TaskRule) -> Option<Ymd> {
    let steps = stride(rule.interval);
    match rule.frequency {
        RecurrenceFrequency::Daily => moved_day(anchor, steps),
        RecurrenceFrequency::Weekly => match rule.day_of_week {
            Some(days) => if days.len() > 0 {
                next_weekday(anchor, days, steps)
            } else {
                moved_day(anchor, 7 * steps)
            },
            None => moved_day(anchor, 7 * steps),
        },
        RecurrenceFrequency::Monthly => {
            let next = anchor.plus_months(steps);
            if !next.valid() {
                None
            } else {
                match rule.day_of_month {
                    Some(day) => clamped(next.year, next.month, day as int),
                    None => Some(next),
                }
            }
        },
        RecurrenceFrequency::Yearly => {
            let next = anchor.plus_months(12 * steps);
            if next.valid() {
                Some(next)
            } else {
                None
            }
        },
    }
}

/// Whether the length of a month can be counted from the first day of the next
/// one, which the last supported month has none of.
pub open spec fn is_measurable(year: int, month: int) -> bool {
    year < LAST_YEAR || year == LAST_YEAR && month < 12
}

/// The dates and rules [`advance`] is for: a day of the month is not asked for
/// in the calendar's very last month, and the months of a yearly step can be
/// counted.
pub open spec fn can_advance(anchor: Ymd, rule: TaskRule) -> bool {
    &&& rule.frequency is Monthly && rule.day_of_month is Some ==> {
        let next = anchor.plus_months(stride(rule.interval));
        next.valid() ==> is_measurable(next.year, next.month)
    }
    &&& rule.frequency is Yearly ==> 12 * stride(rule.interval) <= u32::MAX
}

fn clamp_to_month(year: i32, month: u32, day: u32) -> (r: Option<Date>)
    requires
        1 <= month <= 12,
    ensures
        optional_day(r) == clamped(year as int, month as int, day as int),
{
    if year < FIRST_YEAR || year > LAST_YEAR {
        return None;
    }
    let last = month_length(year, month);
    let kept: u32 = if day > last {
        last
    } else {
        day
    };
    Date::from_ymd_opt(year, month, kept)
}

fn find_least_after(days: &[Weekday], above: i64) -> (r: Option<u32>)
    ensures
        match r {
            Some(p) => least_after(days@, above as int) == Some(p as int) && p < 7,
            None => least_after(days@, above as int) is None,
        },
{
    let mut best: Option<u32> = None;
    let mut i: usize = 0;
    while i < days.len()
        invariant
            i <= days.len(),
            match best {
                Some(p) => least_after(days@.take(i as int), above as int) == Some(p as int) && p
                    < 7,
                None => least_after(days@.take(i as int), above as int) is None,
            },
        decreases days.len() - i,
    {
        assert(days@.take(i as int + 1).drop_last() =~= days@.take(i as int));
        let place: u32 = days[i].days_from_monday();
        let better = match best {
            Some(p) => place < p,
            None => true,
        };
        if place as i64 > above && better {
            best = Some(place);
        }
        i = i + 1;
    }
    assert(days@.take(i as int) =~= days@);
    best
}

fn next_weekday_after(anchor: Date, days: &[Weekday], weeks: u32) -> (r: Option<Date>)
    ensures
        optional_day(r) == next_weekday(anchor@, days@, weeks as int),
{
    let year = anchor.year();
    let place: i64 = days_from_monday(anchor) as i64;
    proof {
        lemma_number_bounds(anchor@);
    }
    if add_days(anchor, -place).is_none() {
        proof {
            lemma_day_bounds();
        }
        return None;
    }
    proof {
        lemma_day_bounds();
    }
    // A listed day still to come in this week wins, whatever the interval:
    // Mon+Thu every two weeks means BOTH days of every second week.
    match find_least_after(days, place) {
        Some(p) => add_days(anchor, p as i64 - place),
        None => match find_least_after(days, -1) {
            Some(first) => add_days(anchor, 7 * (weeks as i64) - place + first as i64),
            None => None,
        },
    }
}

/// Compute the next occurrence date for a recurring task.
///
/// Honours `interval` (every N days, weeks, months or years) and, for weekly
/// rules with `day_of_week` set, snaps forward to the next listed weekday
/// relative to the anchor. `day_of_month` for monthly rules is respected
/// verbatim, clamped to the target month's length (e.g. the 31st in February
/// becomes the last day of February).
pub fn advance(anchor: Date, rule: &TaskRecurrence) -> (r: Option<Date>)
    requires
        can_advance(anchor@, rule@),
    ensures
        optional_day(r) == advanced(anchor@, rule@),
{
    let steps: u32 = if rule.interval == 0 {
        1
    } else {
        rule.interval
    };
    match rule.frequency {
        RecurrenceFrequency::Daily => add_days(anchor, steps as i64),
        RecurrenceFrequency::Weekly => match &rule.day_of_week {
            Some(days) => if days.len() > 0 {
                next_weekday_after(anchor, days.as_slice(), steps)
            } else {
                add_days(anchor, 7 * (steps as i64))
            },
            None => add_days(anchor, 7 * (steps as i64)),
        },
        RecurrenceFrequency::Monthly => match plus_months(anchor, steps) {
            Some(next) => match rule.day_of_month {
                Some(day) => clamp_to_month(next.year(), next.month(), day as u32),
                None => Some(next),
            },
            None => None,
        },
        RecurrenceFrequency::Yearly => plus_months(anchor, 12 * steps),
    }
}

// ---------------------------------------------------------------------------
// Fixed dates
// ---------------------------------------------------------------------------

/// A day of the year in a given year: an out-of-range month is none, and a day
/// past the month's length is its last.
pub open spec fn fixed_in(year: int, md: MonthDay) -> Option<Ymd> {
    if 1 <= md.month <= 12 {
        clamped(
            year,
            md.month as int,
            if md.day == 0 {
                1
            } else {
                md.day as int
            },
        )
    } else {
        None
    }
}

/// The earlier of a date found so far and another one after `from`.
pub open spec fn earlier_of(best: Option<Ymd>, other: Option<Ymd>, from: Ymd) -> Option<Ymd> {
    match other {
        Some(date) => if from.before(date) && match best {
            Some(b) => date.before(b),
            None => true,
        } {
            Some(date)
        } else {
            best
        },
        None => best,
    }
}

/// The earliest date after `from` that some days of the year give in one year,
/// or the one found before.
pub open spec fn earliest_in(
    from: Ymd,
    year: int,
    dates: Seq<MonthDay>,
    best: Option<Ymd>,
) -> Option<Ymd>
    decreases dates.len(),
{
    if dates.len() == 0 {
        best
    } else {
        earlier_of(
            earliest_in(from, year, dates.drop_last(), best),
            fixed_in(year, dates.last()),
            from,
        )
    }
}

/// The earliest of some days of the year strictly after `from`, in its year or
/// the next.
pub open spec fn next_fixed(from: Ymd, dates: Seq<MonthDay>) -> Option<Ymd> {
    earliest_in(from, from.year + 1, dates, earliest_in(from, from.year, dates, None))
}

/// The days whose fixed dates can be worked out: every month asked for, in this
/// year and the next, can be measured.
pub open spec fn can_scan(from: Ymd, dates: Seq<MonthDay>) -> bool {
    forall|i: int|
        0 <= i < dates.len() && 1 <= (#[trigger] dates[i]).month <= 12 ==> is_measurable(
            from.year + 1,
            dates[i].month as int,
        )
}

fn scan_year(from: Date, year: i32, dates: &[MonthDay], best: Option<Date>) -> (r: Option<Date>)
    ensures
        optional_day(r) == earliest_in(from@, year as int, dates@, optional_day(best)),
{
    let mut found = best;
    let mut i: usize = 0;
    while i < dates.len()
        invariant
            i <= dates.len(),
            optional_day(found) == earliest_in(
                from@,
                year as int,
                dates@.take(i as int),
                optional_day(best),
            ),
        decreases dates.len() - i,
    {
        assert(dates@.take(i as int + 1).drop_last() =~= dates@.take(i as int));
        let md = dates[i];
        if 1 <= md.month && md.month <= 12 {
            let day: u32 = if md.day == 0 {
                1
            } else {
                md.day as u32
            };
            if let Some(date) = clamp_to_month(year, md.month as u32, day) {
                let better = match &found {
                    Some(b) => date.before(b),
                    None => true,
                };
                if from.before(&date) && better {
                    found = Some(date);
                }
            }
        }
        i = i + 1;
    }
    assert(dates@.take(i as int) =~= dates@);
    found
}

fn next_fixed_date_after(from: Date, dates: &[MonthDay]) -> (r: Option<Date>)
    requires
        can_scan(from@, dates@),
    ensures
        optional_day(r) == next_fixed(from@, dates@),
{
    let year = from.year();
    let this_year = scan_year(from, year, dates, None);
    scan_year(from, year + 1, dates, this_year)
}

// ---------------------------------------------------------------------------
// The next trigger
// ---------------------------------------------------------------------------

/// The fixed dates of a rule, where it has any.
pub open spec fn fixed_of(rule: TaskRule) -> Option<Seq<MonthDay>> {
    match rule.fixed_dates {
        Some(dates) => if dates.len() > 0 {
            Some(dates)
        } else {
            None
        },
        None => None,
    }
}

/// The next trigger of a rule: its next fixed date, or its next step.
pub open spec fn triggered(base: Ymd, rule: TaskRule) -> Option<Ymd> {
    match fixed_of(rule) {
        Some(dates) => next_fixed(base, dates),
        None => advanced(base, rule),
    }
}

/// The dates and rules whose next trigger can be worked out.
pub open spec fn can_trigger(base: Ymd, rule: TaskRule) -> bool {
    match fixed_of(rule) {
        Some(dates) => can_scan(base, dates),
        None => can_advance(base, rule),
    }
}

fn next_trigger(base: Date, rule: &TaskRecurrence) -> (r: Option<Date>)
    requires
        can_trigger(base@, rule@),
    ensures
        optional_day(r) == triggered(base@, rule@),
{
    match &rule.fixed_dates {
        Some(dates) => if dates.len() > 0 {
            next_fixed_date_after(base, dates.as_slice())
        } else {
            advance(base, rule)
        },
        None => advance(base, rule),
    }
}

/// How many missed turns a single catch-up may skip over: far past any real
/// gap, and a hard stop for a rule whose steps are pathologically small.
pub const MAX_CATCHUP_STEPS: u32 = 10_000;

/// The LATEST turn that is not after `not_before`, walking a rule forward from
/// `date`, or `date` itself when every turn is still ahead.
pub open spec fn caught_up(date: Ymd, rule: TaskRule, not_before: Ymd, left: nat) -> Ymd
    decreases left,
{
    if left == 0 || !date.before(not_before) {
        date
    } else {
        match triggered(date, rule) {
            Some(further) => if date.before(further) && !not_before.before(further) {
                caught_up(further, rule, not_before, (left - 1) as nat)
            } else {
                date
            },
            None => date,
        }
    }
}

/// The walks whose every trigger can be worked out.
pub open spec fn can_catch_up(date: Ymd, rule: TaskRule, not_before: Ymd, left: nat) -> bool
    decreases left,
{
    if left == 0 || !date.before(not_before) {
        true
    } else {
        can_trigger(date, rule) && match triggered(date, rule) {
            Some(further) => date.before(further) && !not_before.before(further) ==> can_catch_up(
                further,
                rule,
                not_before,
                (left - 1) as nat,
            ),
            None => true,
        }
    }
}

/// A daily task forgotten for five days comes back once, not once for every day
/// gone by: the walk stops on the last turn that has not passed the tick. A
/// daily rule lands on the tick day itself; a monthly one lands on this month's
/// turn, overdue by a day and visible.
fn catch_up(first: Date, rule: &TaskRecurrence, not_before: Date) -> (r: Date)
    requires
        can_catch_up(first@, rule@, not_before@, MAX_CATCHUP_STEPS as nat),
    ensures
        r@ == caught_up(first@, rule@, not_before@, MAX_CATCHUP_STEPS as nat),
{
    let mut date = first;
    let mut left: u32 = MAX_CATCHUP_STEPS;
    while left > 0
        invariant
            can_catch_up(date@, rule@, not_before@, left as nat),
            caught_up(first@, rule@, not_before@, MAX_CATCHUP_STEPS as nat) == caught_up(
                date@,
                rule@,
                not_before@,
                left as nat,
            ),
        decreases left,
    {
        if !date.before(&not_before) {
            return date;
        }
        let further = match next_trigger(date, rule) {
            Some(d) => d,
            None => {
                return date;
            },
        };
        if !date.before(&further) || not_before.before(&further) {
            return date;
        }
        date = further;
        left = left - 1;
    }
    date
}

// ---------------------------------------------------------------------------
// Instances
// ---------------------------------------------------------------------------

/// Whether a rule that ends on a date has run past it.
pub open spec fn has_ended(rule: TaskRule, date: Ymd) -> bool {
    match rule.end {
        Some(EndRule::OnDate { date: end }) => end.before(date),
        _ => false,
    }
}

/// A spawned instance: the template's content, its completion state reset, and
/// the date placement given. Times survive only alongside their date.
pub open spec fn instance_of(
    template: Task,
    rule: TaskRule,
    scheduled: Option<Ymd>,
    deadline: Option<Ymd>,
    resurface: Option<Ymd>,
) -> NewTaskText {
    NewTaskText {
        title: template.title@,
        description: optional_text(template.description),
        status: TaskStatus::Open,
        priority: template.priority,
        effort: template.effort,
        scheduled_date: scheduled,
        scheduled_time: if scheduled is Some {
            template.scheduled_time
        } else {
            None
        },
        scheduled_end_time: if scheduled is Some && template.scheduled_time is Some {
            template.scheduled_end_time
        } else {
            None
        },
        deadline_date: deadline,
        deadline_time: if deadline is Some {
            template.deadline_time
        } else {
            None
        },
        deadline_reminder_days: if deadline is Some {
            template.deadline_reminder_days
        } else {
            None
        },
        recurrence: Some(rule),
        resurface_date: resurface,
        series_id: optional_text(template.series_id),
        parent_id: None,
        section_id: optional_text(template.section_id),
        color_label: optional_label(template.color_label),
        reminders: reminder_texts(template.reminders@),
        sound: optional_sound(template.sound),
        assignees: Seq::empty(),
    }
}

/// What the next turn of a scheduled rule counts from.
pub open spec fn base_of(template: Task, rule: TaskRule, completed: Ymd) -> Option<Ymd> {
    match rule.anchor {
        RecurrenceAnchor::FromDate => match template.scheduled_date {
            Some(date) => Some(date@),
            None => optional_day(template.deadline_date),
        },
        RecurrenceAnchor::FromCompletion => Some(completed),
    }
}

/// The next dated instance, or nothing where there is no date to advance from,
/// no further trigger, or the rule has ended.
pub open spec fn next_scheduled(template: Task, rule: TaskRule, completed: Ymd) -> Option<
    NewTaskText,
> {
    match base_of(template, rule, completed) {
        Some(base) => match triggered(base, rule) {
            Some(first) => {
                let date = caught_up(first, rule, completed, MAX_CATCHUP_STEPS as nat);
                if has_ended(rule, date) {
                    None
                } else {
                    // The template's own date fields are the ones that are
                    // used; an undated task gets a plan.
                    let scheduled = template.scheduled_date is Some
                        || template.deadline_date is None;
                    Some(
                        instance_of(
                            template,
                            rule,
                            if scheduled {
                                Some(date)
                            } else {
                                None
                            },
                            if template.deadline_date is Some {
                                Some(date)
                            } else {
                                None
                            },
                            None,
                        ),
                    )
                }
            },
            None => None,
        },
        None => None,
    }
}

/// The next undated instance: visible at once for a rule without an interval,
/// else when its next trigger comes.
pub open spec fn next_in_backlog(template: Task, rule: TaskRule, completed: Ymd) -> Option<
    NewTaskText,
> {
    if fixed_of(rule) is None && rule.interval == 0 {
        Some(instance_of(template, rule, None, None, None))
    } else {
        match triggered(completed, rule) {
            Some(date) => if has_ended(rule, date) {
                None
            } else {
                Some(instance_of(template, rule, None, None, Some(date)))
            },
            None => None,
        }
    }
}

/// The next instance of a completed task.
pub open spec fn next_instance(template: Task, completed: Ymd) -> Option<NewTaskText> {
    match template.recurrence {
        Some(rule) => match rule.placement {
            RecurrencePlacement::Schedule => next_scheduled(template, rule@, completed),
            RecurrencePlacement::Backlog => next_in_backlog(template, rule@, completed),
        },
        None => None,
    }
}

/// The tasks whose next instance can be worked out: no trigger on the way asks
/// for the calendar's very last month.
pub open spec fn can_spawn(template: Task, completed: Ymd) -> bool {
    match template.recurrence {
        Some(rule) => match rule.placement {
            RecurrencePlacement::Schedule => match base_of(template, rule@, completed) {
                Some(base) => can_trigger(base, rule@) && match triggered(base, rule@) {
                    Some(first) => can_catch_up(
                        first,
                        rule@,
                        completed,
                        MAX_CATCHUP_STEPS as nat,
                    ),
                    None => true,
                },
                None => true,
            },
            RecurrencePlacement::Backlog => fixed_of(rule@) is None && rule.interval == 0
                || can_trigger(completed, rule@),
        },
        None => true,
    }
}

fn recurrence_ended(rule: &TaskRecurrence, date: Date) -> (r: bool)
    ensures
        r == has_ended(rule@, date@),
{
    match &rule.end {
        Some(RecurrenceEnd::OnDate { date: end }) => end.before(&date),
        _ => false,
    }
}

fn instance_skeleton(
    template: &Task,
    rule: &TaskRecurrence,
    scheduled: Option<Date>,
    deadline: Option<Date>,
    resurface: Option<Date>,
) -> (r: NewTask)
    ensures
        r@ == instance_of(
            *template,
            rule@,
            optional_day(scheduled),
            optional_day(deadline),
            optional_day(resurface),
        ),
{
    let assignees: Vec<TaskUser> = Vec::new();
    assert(user_texts(assignees@) =~= Seq::empty());
    NewTask {
        title: template.title.clone(),
        description: copy_optional(&template.description),
        status: TaskStatus::Open,
        priority: template.priority,
        effort: template.effort,
        scheduled_date: scheduled,
        scheduled_time: if scheduled.is_some() {
            template.scheduled_time
        } else {
            None
        },
        // The block's length is part of the plan and repeats with it, but an
        // end with no start is not a block.
        scheduled_end_time: if scheduled.is_some() && template.scheduled_time.is_some() {
            template.scheduled_end_time
        } else {
            None
        },
        deadline_date: deadline,
        deadline_time: if deadline.is_some() {
            template.deadline_time
        } else {
            None
        },
        deadline_reminder_days: if deadline.is_some() {
            template.deadline_reminder_days
        } else {
            None
        },
        recurrence: Some(rule.copy()),
        resurface_date: resurface,
        series_id: copy_optional(&template.series_id),
        parent_id: None,
        section_id: copy_optional(&template.section_id),
        color_label: copy_label(&template.color_label),
        reminders: copy_reminders(template.reminders.as_slice()),
        sound: copy_sound(&template.sound),
        assignees,
    }
}

/// What an optional new task holds.
pub open spec fn optional_new_task(o: Option<NewTask>) -> Option<NewTaskText> {
    match o {
        Some(t) => Some(t@),
        None => None,
    }
}

fn next_scheduled_instance(
    template: &Task,
    rule: &TaskRecurrence,
    completion_date: Date,
) -> (r: Option<NewTask>)
    requires
        base_of(*template, rule@, completion_date@) matches Some(base) ==> can_trigger(base, rule@)
            && match triggered(base, rule@) {
            Some(first) => can_catch_up(
                first,
                rule@,
                completion_date@,
                MAX_CATCHUP_STEPS as nat,
            ),
            None => true,
        },
    ensures
        optional_new_task(r) == next_scheduled(*template, rule@, completion_date@),
{
    let base = match rule.anchor {
        RecurrenceAnchor::FromDate => match template.scheduled_date {
            Some(date) => date,
            None => match template.deadline_date {
                Some(date) => date,
                None => {
                    return None;
                },
            },
        },
        RecurrenceAnchor::FromCompletion => completion_date,
    };
    let first = match next_trigger(base, rule) {
        Some(date) => date,
        None => {
            return None;
        },
    };
    // Skip the turns that were missed while the task sat unchecked.
    let date = catch_up(first, rule, completion_date);
    if recurrence_ended(rule, date) {
        return None;
    }
    let scheduled = if template.scheduled_date.is_some() || template.deadline_date.is_none() {
        Some(date)
    } else {
        None
    };
    let deadline = if template.deadline_date.is_some() {
        Some(date)
    } else {
        None
    };
    Some(instance_skeleton(template, rule, scheduled, deadline, None))
}

fn next_backlog_instance(
    template: &Task,
    rule: &TaskRecurrence,
    completion_date: Date,
) -> (r: Option<NewTask>)
    requires
        fixed_of(rule@) is None && rule.interval == 0 || can_trigger(completion_date@, rule@),
    ensures
        optional_new_task(r) == next_in_backlog(*template, rule@, completion_date@),
{
    let fixed = match &rule.fixed_dates {
        Some(dates) => dates.len() > 0,
        None => false,
    };
    if !fixed && rule.interval == 0 {
        // No interval: surface at once.
        return Some(instance_skeleton(template, rule, None, None, None));
    }
    match next_trigger(completion_date, rule) {
        Some(date) => if recurrence_ended(rule, date) {
            None
        } else {
            Some(instance_skeleton(template, rule, None, None, Some(date)))
        },
        None => None,
    }
}

/// The next instance to spawn when `template` (a recurring task) is completed,
/// or `None` when nothing should be created: no recurrence, no anchor to
/// advance from, an exhausted `fixed_dates` rule, or a rule past its end date.
///
/// `completion_date` is the LOCAL calendar date the task was completed on; the
/// caller converts the instant to the user's timezone. A "+1 day backlog" rule
/// completed at 00:30 local time, still the previous day in UTC, must resurface
/// tomorrow, not today.
pub fn next_recurrence_instance(template: &Task, completion_date: Date) -> (r: Option<NewTask>)
    requires
        can_spawn(*template, completion_date@),
    ensures
        optional_new_task(r) == next_instance(*template, completion_date@),
{
    match &template.recurrence {
        Some(rule) => match rule.placement {
            RecurrencePlacement::Schedule => next_scheduled_instance(
                template,
                rule,
                completion_date,
            ),
            RecurrencePlacement::Backlog => next_backlog_instance(template, rule, completion_date),
        },
        None => None,
    }
}

/// The record a completed turn leaves behind.
pub open spec fn record_of(completed: Task) -> NewTaskText {
    NewTaskText {
        title: completed.title@,
        description: optional_text(completed.description),
        status: TaskStatus::Completed,
        priority: completed.priority,
        effort: completed.effort,
        scheduled_date: optional_day(completed.scheduled_date),
        scheduled_time: completed.scheduled_time,
        scheduled_end_time: completed.scheduled_end_time,
        deadline_date: optional_day(completed.deadline_date),
        deadline_time: completed.deadline_time,
        deadline_reminder_days: completed.deadline_reminder_days,
        recurrence: None,
        resurface_date: None,
        series_id: None,
        parent_id: None,
        section_id: None,
        color_label: optional_label(completed.color_label),
        reminders: Seq::empty(),
        sound: None,
        assignees: user_texts(completed.assignees@),
    }
}

/// Build the COMPLETED snapshot ("completion record") to leave behind when a
/// recurring task is checked off on a provider whose NATIVE recurrence keeps no
/// completion history. The provider advances the live task to its next
/// occurrence; this record keeps the just-completed turn visible under "Done".
///
/// It is a terminal, non-recurring copy: same content, dates and assignees,
/// status `Completed`, with `recurrence`, `series_id` and `resurface_date`
/// cleared so the provider cannot repeat it and nothing spawns from it. No
/// section (let the provider file it in its done state) and no reminders (a
/// finished task fires nothing).
pub fn completion_record_for(completed: &Task) -> (r: NewTask)
    ensures
        r@ == record_of(*completed),
{
    let reminders: Vec<Reminder> = Vec::new();
    assert(reminder_texts(reminders@) =~= Seq::empty());
    NewTask {
        title: completed.title.clone(),
        description: copy_optional(&completed.description),
        status: TaskStatus::Completed,
        priority: completed.priority,
        effort: completed.effort,
        scheduled_date: completed.scheduled_date,
        scheduled_time: completed.scheduled_time,
        scheduled_end_time: completed.scheduled_end_time,
        deadline_date: completed.deadline_date,
        deadline_time: completed.deadline_time,
        deadline_reminder_days: completed.deadline_reminder_days,
        recurrence: None,
        resurface_date: None,
        series_id: None,
        parent_id: None,
        section_id: None,
        color_label: copy_label(&completed.color_label),
        reminders,
        sound: None,
        assignees: copy_users(completed.assignees.as_slice()),
    }
}

// ---------------------------------------------------------------------------
// Laws
// ---------------------------------------------------------------------------

/// Catching up never goes back, and goes no further than the tick: the date it
/// lands on is the first one, or one that does not pass `not_before`.
pub proof fn catching_up_never_goes_back(
    first: Ymd,
    rule: TaskRule,
    not_before: Ymd,
    left: nat,
)
    ensures
        !caught_up(first, rule, not_before, left).before(first),
        caught_up(first, rule, not_before, left) == first || !not_before.before(
            caught_up(first, rule, not_before, left),
        ),
    decreases left,
{
    if left > 0 && first.before(not_before) {
        if let Some(further) = triggered(first, rule) {
            if first.before(further) && !not_before.before(further) {
                catching_up_never_goes_back(further, rule, not_before, (left - 1) as nat);
            }
        }
    }
}

/// A day of the year is a trigger only after `from`, and none of the dates given
/// for this year or the next comes sooner.
pub proof fn the_next_fixed_date_is_the_soonest(from: Ymd, dates: Seq<MonthDay>)
    ensures
        next_fixed(from, dates) matches Some(date) ==> from.before(date),
        forall|i: int, year: int|
            0 <= i < dates.len() && (year == from.year || year == from.year + 1)
                && #[trigger] fixed_in(year, dates[i]) is Some && from.before(
                fixed_in(year, dates[i]).unwrap(),
            ) ==> next_fixed(from, dates) is Some && !fixed_in(year, dates[i]).unwrap().before(
                next_fixed(from, dates).unwrap(),
            ),
{
    lemma_earliest(from, from.year, dates, None);
    let this_year = earliest_in(from, from.year, dates, None);
    lemma_earliest(from, from.year + 1, dates, this_year);
}

proof fn lemma_earliest(from: Ymd, year: int, dates: Seq<MonthDay>, best: Option<Ymd>)
    requires
        best matches Some(b) ==> from.before(b),
    ensures
        earliest_in(from, year, dates, best) matches Some(date) ==> from.before(date),
        best matches Some(b) ==> earliest_in(from, year, dates, best) is Some && !b.before(
            earliest_in(from, year, dates, best).unwrap(),
        ),
        forall|i: int|
            0 <= i < dates.len() && fixed_in(year, #[trigger] dates[i]) is Some && from.before(
                fixed_in(year, dates[i]).unwrap(),
            ) ==> earliest_in(from, year, dates, best) is Some && !fixed_in(
                year,
                dates[i],
            ).unwrap().before(earliest_in(from, year, dates, best).unwrap()),
    decreases dates.len(),
{
    if dates.len() > 0 {
        let front = dates.drop_last();
        lemma_earliest(from, year, front, best);
        assert forall|i: int|
            0 <= i < dates.len() && fixed_in(year, #[trigger] dates[i]) is Some && from.before(
                fixed_in(year, dates[i]).unwrap(),
            ) implies earliest_in(from, year, dates, best) is Some && !fixed_in(
            year,
            dates[i],
        ).unwrap().before(earliest_in(from, year, dates, best).unwrap()) by {
            if i < front.len() {
                assert(front[i] == dates[i]);
            }
        }
    }
}

proof fn lemma_least_after(days: Seq<Weekday>, above: int)
    ensures
        least_after(days, above) matches Some(p) ==> above < p <= 6 && 0 <= p,
        least_after(days, above) is None ==> forall|i: int|
            0 <= i < days.len() ==> (#[trigger] days[i]).place() <= above,
    decreases days.len(),
{
    if days.len() > 0 {
        let front = days.drop_last();
        lemma_least_after(front, above);
        if least_after(days, above) is None {
            assert forall|i: int| 0 <= i < days.len() implies (#[trigger] days[i]).place()
                <= above by {
                if i < front.len() {
                    assert(front[i] == days[i]);
                }
            }
        }
    }
}

proof fn lemma_moved_ahead(day: Ymd, days: int)
    requires
        day.valid(),
        days > 0,
    ensures
        moved_day(day, days) matches Some(to) ==> to.valid() && day.before(to) && to.number()
            == day.number() + days,
{
    lemma_day_bounds();
    lemma_number_bounds(day);
    if moved_day(day, days) is Some {
        every_number_has_a_day(day.number() + days);
        let to = day_at(day.number() + days);
        day_numbers_follow_the_calendar(day, to);
    }
}

/// A rule moves forward: the next occurrence is a day that exists and lies
/// after the one it is counted from.
pub proof fn advancing_moves_forward(anchor: Ymd, rule: TaskRule)
    requires
        anchor.valid(),
    ensures
        advanced(anchor, rule) matches Some(next) ==> next.valid() && anchor.before(next),
{
    let steps = stride(rule.interval);
    match rule.frequency {
        RecurrenceFrequency::Daily => {
            lemma_moved_ahead(anchor, steps);
        },
        RecurrenceFrequency::Weekly => {
            lemma_moved_ahead(anchor, 7 * steps);
            if let Some(days) = rule.day_of_week {
                let place = anchor.weekday();
                lemma_least_after(days, place);
                lemma_least_after(days, -1);
                if let Some(p) = least_after(days, place) {
                    lemma_moved_ahead(anchor, p - place);
                } else if let Some(first) = least_after(days, -1) {
                    lemma_moved_ahead(anchor, 7 * steps - place + first);
                }
            }
        },
        _ => {},
    }
}

/// A day far enough from the end of the calendar for a rule to step on from it:
/// as many years are left as the rule takes steps at once.
pub open spec fn has_room(day: Ymd, rule: TaskRule) -> bool {
    day.valid() && day.year + stride(rule.interval) < LAST_YEAR
}

proof fn lemma_room_to_trigger(day: Ymd, rule: TaskRule)
    requires
        has_room(day, rule),
    ensures
        can_trigger(day, rule),
{
    let steps = stride(rule.interval);
    assert((day.year * 12 + day.month - 1 + steps) / 12 <= day.year + steps);
}

proof fn lemma_earliest_exists(from: Ymd, year: int, dates: Seq<MonthDay>, best: Option<Ymd>)
    requires
        best matches Some(b) ==> b.valid(),
    ensures
        earliest_in(from, year, dates, best) matches Some(date) ==> date.valid(),
    decreases dates.len(),
{
    if dates.len() > 0 {
        lemma_earliest_exists(from, year, dates.drop_last(), best);
    }
}

proof fn lemma_trigger_exists(day: Ymd, rule: TaskRule)
    requires
        day.valid(),
    ensures
        triggered(day, rule) matches Some(next) ==> next.valid(),
{
    match fixed_of(rule) {
        Some(dates) => {
            lemma_earliest_exists(day, day.year, dates, None);
            lemma_earliest_exists(
                day,
                day.year + 1,
                dates,
                earliest_in(day, day.year, dates, None),
            );
        },
        None => {
            advancing_moves_forward(day, rule);
        },
    }
}

proof fn lemma_room_to_catch_up(date: Ymd, rule: TaskRule, not_before: Ymd, left: nat)
    requires
        date.valid(),
        has_room(not_before, rule),
    ensures
        can_catch_up(date, rule, not_before, left),
    decreases left,
{
    if left > 0 && date.before(not_before) {
        lemma_room_to_trigger(date, rule);
        lemma_trigger_exists(date, rule);
        if let Some(further) = triggered(date, rule) {
            lemma_room_to_catch_up(further, rule, not_before, (left - 1) as nat);
        }
    }
}

/// Every task whose dates lie clear of the end of the calendar can be spawned:
/// only the day it is advanced from and the day it was completed on matter.
pub proof fn dates_with_room_can_spawn(template: Task, completed: Ymd)
    requires
        template.recurrence matches Some(rule) ==> has_room(completed, rule@),
        template.recurrence matches Some(rule) ==> (base_of(template, rule@, completed) matches Some(
            base,
        ) ==> has_room(base, rule@)),
    ensures
        can_spawn(template, completed),
{
    if let Some(rule) = template.recurrence {
        lemma_room_to_trigger(completed, rule@);
        if let Some(base) = base_of(template, rule@, completed) {
            lemma_room_to_trigger(base, rule@);
            lemma_trigger_exists(base, rule@);
            if let Some(first) = triggered(base, rule@) {
                lemma_room_to_catch_up(first, rule@, completed, MAX_CATCHUP_STEPS as nat);
            }
        }
    }
}

// ---------------------------------------------------------------------------
// What a step is
// ---------------------------------------------------------------------------

/// A step is as long as the interval says, and an interval of none counts as
/// one: so many days for a daily rule, so many weeks for a weekly one without
/// weekdays, so many months or years for the others. A month that lacks the day
/// gives its last. There is no step only where it would leave the calendar, or
/// where the rule asks for a day 0.
pub proof fn a_step_is_as_long_as_the_interval(anchor: Ymd, rule: TaskRule)
    requires
        anchor.valid(),
    ensures
        ({
            let n: int = if rule.interval == 0 {
                1
            } else {
                rule.interval as int
            };
            let on_weekdays = rule.day_of_week matches Some(days) && days.len() > 0;
            let months = anchor.year * 12 + (anchor.month - 1) + n;
            match rule.frequency {
                RecurrenceFrequency::Daily => match advanced(anchor, rule) {
                    Some(next) => next.valid() && next.number() - anchor.number() == n,
                    None => anchor.number() + n > last_day_number(),
                },
                RecurrenceFrequency::Weekly => on_weekdays || match advanced(anchor, rule) {
                    Some(next) => next.valid() && next.number() - anchor.number() == 7 * n,
                    None => anchor.number() + 7 * n > last_day_number(),
                },
                RecurrenceFrequency::Monthly => match advanced(anchor, rule) {
                    Some(next) => {
                        &&& next.valid()
                        &&& next.year * 12 + (next.month - 1) == months
                        &&& next.day == match rule.day_of_month {
                            Some(wanted) => lesser(
                                wanted as int,
                                days_in_month(next.year, next.month),
                            ),
                            None => lesser(anchor.day, days_in_month(next.year, next.month)),
                        }
                    },
                    None => months >= (LAST_YEAR + 1) * 12 || rule.day_of_month == Some(0u8),
                },
                RecurrenceFrequency::Yearly => match advanced(anchor, rule) {
                    Some(next) => {
                        &&& next.valid()
                        &&& next.year - anchor.year == n
                        &&& next.month == anchor.month
                        &&& next.day == lesser(anchor.day, days_in_month(next.year, next.month))
                    },
                    None => anchor.year + n > LAST_YEAR,
                },
            }
        }),
{
    lemma_day_bounds();
    lemma_number_bounds(anchor);
    let steps = stride(rule.interval);
    match rule.frequency {
        RecurrenceFrequency::Daily => {
            lemma_moved_ahead(anchor, steps);
        },
        RecurrenceFrequency::Weekly => {
            lemma_moved_ahead(anchor, 7 * steps);
        },
        RecurrenceFrequency::Monthly => {
            lemma_month_steps(anchor, steps);
        },
        RecurrenceFrequency::Yearly => {
            lemma_month_steps(anchor, 12 * steps);
            let total = anchor.year * 12 + anchor.month - 1 + 12 * steps;
            assert(total / 12 == anchor.year + steps);
            assert(total % 12 + 1 == anchor.month);
        },
    }
}

/// The smaller of two numbers.
pub open spec fn lesser(a: int, b: int) -> int {
    if a < b {
        a
    } else {
        b
    }
}

proof fn lemma_month_steps(anchor: Ymd, months: int)
    requires
        anchor.valid(),
        months > 0,
    ensures
        ({
            let next = anchor.plus_months(months);
            let total = anchor.year * 12 + anchor.month - 1 + months;
            &&& next.year * 12 + (next.month - 1) == total
            &&& 1 <= next.month <= 12
            &&& next.day == lesser(anchor.day, days_in_month(next.year, next.month))
            &&& 28 <= days_in_month(next.year, next.month)
            &&& next.valid() <==> total < (LAST_YEAR + 1) * 12
        }),
{
}

/// A weekly rule on given weekdays keeps to them. While one of them is still to
/// come in the anchor's own week, that is the next, and the nearest of them;
/// otherwise it is the first of them in the week as many weeks later as the
/// interval says. Weeks start on Monday.
pub proof fn a_weekly_rule_keeps_to_its_days(anchor: Ymd, rule: TaskRule, next: Ymd)
    requires
        anchor.valid(),
        rule.frequency is Weekly,
        rule.day_of_week matches Some(days) && days.len() > 0,
        advanced(anchor, rule) == Some(next),
    ensures
        ({
            let days = rule.day_of_week.unwrap();
            let n: int = if rule.interval == 0 {
                1
            } else {
                rule.interval as int
            };
            let monday = anchor.number() - anchor.weekday();
            let to_come = exists|k: int|
                0 <= k < days.len() && (#[trigger] days[k]).place() > anchor.weekday();
            &&& exists|k: int| 0 <= k < days.len() && (#[trigger] days[k]).place() == next.weekday()
            &&& next.number() - next.weekday() == if to_come {
                monday
            } else {
                monday + 7 * n
            }
            &&& to_come ==> forall|k: int|
                0 <= k < days.len() && (#[trigger] days[k]).place() > anchor.weekday()
                    ==> next.weekday() <= days[k].place()
            &&& !to_come ==> forall|k: int|
                0 <= k < days.len() ==> next.weekday() <= (#[trigger] days[k]).place()
        }),
{
    let days = rule.day_of_week.unwrap();
    let steps = stride(rule.interval);
    let place = anchor.weekday();
    lemma_least_is_listed(days, place);
    lemma_least_is_listed(days, -1);
    lemma_least_after(days, place);
    lemma_least_after(days, -1);
    if let Some(p) = least_after(days, place) {
        lemma_moved_ahead(anchor, p - place);
    } else if let Some(first) = least_after(days, -1) {
        lemma_moved_ahead(anchor, 7 * steps - place + first);
    } else {
        assert(days[0].place() <= -1);
    }
}

/// A weekly rule on given weekdays always goes on, but at the ends of the
/// calendar.
pub proof fn a_weekly_rule_goes_on(anchor: Ymd, rule: TaskRule)
    requires
        anchor.valid(),
        rule.frequency is Weekly,
        rule.day_of_week matches Some(days) && days.len() > 0,
        first_day_number() <= anchor.number() - anchor.weekday(),
        anchor.number() + 7 * rule.interval + 7 + 6 <= last_day_number(),
    ensures
        advanced(anchor, rule) is Some,
{
    let days = rule.day_of_week.unwrap();
    lemma_least_after(days, anchor.weekday());
    lemma_least_after(days, -1);
    if least_after(days, -1) is None {
        assert(days[0].place() <= -1);
    }
}

proof fn lemma_least_is_listed(days: Seq<Weekday>, above: int)
    ensures
        least_after(days, above) matches Some(p) ==> {
            &&& exists|k: int| 0 <= k < days.len() && (#[trigger] days[k]).place() == p
            &&& forall|k: int|
                0 <= k < days.len() && (#[trigger] days[k]).place() > above ==> p
                    <= days[k].place()
        },
    decreases days.len(),
{
    if days.len() > 0 {
        let front = days.drop_last();
        lemma_least_is_listed(front, above);
        lemma_least_after(front, above);
        if let Some(p) = least_after(days, above) {
            if least_after(front, above) == Some(p) {
                let k = choose|k: int| 0 <= k < front.len() && (#[trigger] front[k]).place() == p;
                assert(days[k].place() == p);
            } else {
                assert(days[days.len() - 1].place() == p);
            }
            assert forall|k: int|
                0 <= k < days.len() && (#[trigger] days[k]).place() > above implies p
                <= days[k].place() by {
                if k < front.len() {
                    assert(front[k] == days[k]);
                }
            }
        }
    }
}

/// The day a month and a day of it name in a year: the month's last where it is
/// shorter, and its first for a day 0.
spec fn named_day(year: int, md: MonthDay) -> Ymd {
    Ymd {
        year,
        month: md.month as int,
        day: if md.day == 0 {
            1
        } else {
            lesser(md.day as int, days_in_month(year, md.month as int))
        },
    }
}

/// The next of some days of the year is one of them, in this year or the next,
/// and lies after the day it is counted from. None of them that lies after that
/// day comes sooner, and there is a next where there is any of them.
pub proof fn the_next_fixed_date_is_one_of_them(from: Ymd, dates: Seq<MonthDay>)
    requires
        from.valid(),
    ensures
        match next_fixed(from, dates) {
            Some(date) => date.valid() && from.before(date) && exists|i: int|
                0 <= i < dates.len() && 1 <= (#[trigger] dates[i]).month <= 12 && date.month
                    == dates[i].month && (date.year == from.year || date.year == from.year + 1)
                    && date.day == if dates[i].day == 0 {
                    1
                } else {
                    lesser(dates[i].day as int, days_in_month(date.year, date.month))
                },
            None => forall|i: int|
                0 <= i < dates.len() && 1 <= (#[trigger] dates[i]).month <= 12 ==> from.year
                    == LAST_YEAR,
        },
        forall|i: int, other: Ymd|
            0 <= i < dates.len() && 1 <= (#[trigger] dates[i]).month <= 12 && #[trigger] from.before(
                other,
            ) && other.year <= LAST_YEAR && (other.year == from.year || other.year == from.year + 1)
                && other.month == dates[i].month && other.day == (if dates[i].day == 0 {
                1
            } else {
                lesser(dates[i].day as int, days_in_month(other.year, other.month))
            }) ==> next_fixed(from, dates) is Some && !other.before(
                next_fixed(from, dates).unwrap(),
            ),
{
    the_next_fixed_date_is_the_soonest(from, dates);
    lemma_earliest_exists(from, from.year, dates, None);
    lemma_earliest_exists(from, from.year + 1, dates, earliest_in(from, from.year, dates, None));
    lemma_earliest_is_named(from, from.year, dates, None);
    lemma_earliest_is_named(
        from,
        from.year + 1,
        dates,
        earliest_in(from, from.year, dates, None),
    );
    assert forall|i: int, other: Ymd|
        0 <= i < dates.len() && 1 <= (#[trigger] dates[i]).month <= 12 && #[trigger] from.before(
            other,
        ) && other.year <= LAST_YEAR && (other.year == from.year || other.year == from.year + 1)
            && other.month == dates[i].month && other.day == (if dates[i].day == 0 {
            1
        } else {
            lesser(dates[i].day as int, days_in_month(other.year, other.month))
        }) implies next_fixed(from, dates) is Some && !other.before(
        next_fixed(from, dates).unwrap(),
    ) by {
        assert(fixed_in(other.year, dates[i]) == Some(other));
    }
    if next_fixed(from, dates) is None {
        assert forall|i: int| 0 <= i < dates.len() && 1 <= (#[trigger] dates[i]).month <= 12 implies
            from.year == LAST_YEAR by {
            let other = named_day(from.year + 1, dates[i]);
            assert(from.before(other));
        }
    }
}

proof fn lemma_earliest_is_named(from: Ymd, year: int, dates: Seq<MonthDay>, best: Option<Ymd>)
    ensures
        earliest_in(from, year, dates, best) matches Some(date) ==> best == Some(date) || (date.year
            == year && exists|i: int|
            0 <= i < dates.len() && 1 <= (#[trigger] dates[i]).month <= 12 && date == named_day(
                year,
                dates[i],
            )),
    decreases dates.len(),
{
    if dates.len() > 0 {
        let front = dates.drop_last();
        lemma_earliest_is_named(from, year, front, best);
        let before = earliest_in(from, year, front, best);
        if let Some(date) = earliest_in(from, year, dates, best) {
            if before == Some(date) {
                if best != Some(date) {
                    let i = choose|i: int|
                        0 <= i < front.len() && 1 <= (#[trigger] front[i]).month <= 12 && date
                            == named_day(year, front[i]);
                    assert(dates[i] == front[i]);
                }
            } else {
                let last = dates[dates.len() - 1];
                assert(fixed_in(year, last) == Some(date));
                assert(date == named_day(year, last));
            }
        }
    }
}

// ---------------------------------------------------------------------------
// What an instance is
// ---------------------------------------------------------------------------

/// The next instance is a fresh copy: it is open, nobody's and at the top, it
/// carries on the template's content, rule and series, and a time of day stands
/// only beside the date it belongs to.
pub proof fn the_next_instance_is_a_fresh_copy(
    template: Task,
    completed: Ymd,
    rule: TaskRecurrence,
    new: NewTaskText,
)
    requires
        template.recurrence == Some(rule),
        next_instance(template, completed) == Some(new),
    ensures
        new.status is Open,
        new.assignees == Seq::<UserText>::empty(),
        new.parent_id is None,
        new.title == template.title@,
        new.description == optional_text(template.description),
        new.priority == template.priority,
        new.effort == template.effort,
        new.recurrence == Some(rule@),
        new.series_id == optional_text(template.series_id),
        new.section_id == optional_text(template.section_id),
        new.color_label == optional_label(template.color_label),
        new.reminders == reminder_texts(template.reminders@),
        new.sound == optional_sound(template.sound),
        new.scheduled_date is Some ==> new.scheduled_time == template.scheduled_time,
        new.scheduled_date is None ==> new.scheduled_time is None,
        new.scheduled_time is Some ==> new.scheduled_end_time == template.scheduled_end_time,
        new.scheduled_time is None ==> new.scheduled_end_time is None,
        new.deadline_date is Some ==> new.deadline_time == template.deadline_time
            && new.deadline_reminder_days == template.deadline_reminder_days,
        new.deadline_date is None ==> new.deadline_time is None
            && new.deadline_reminder_days is None,
{
}

/// A rule puts its instances where it says. In the schedule an instance uses the
/// date fields its template used, both with the same date, and a plan where it
/// used none. In the backlog it has no date, and comes back at once exactly
/// where the rule has neither an interval nor fixed dates.
pub proof fn an_instance_stands_where_its_rule_says(
    template: Task,
    completed: Ymd,
    rule: TaskRecurrence,
    new: NewTaskText,
)
    requires
        template.recurrence == Some(rule),
        next_instance(template, completed) == Some(new),
    ensures
        rule.placement is Schedule ==> {
            &&& new.resurface_date is None
            &&& new.deadline_date is Some <==> template.deadline_date is Some
            &&& new.scheduled_date is Some <==> (template.scheduled_date is Some
                || template.deadline_date is None)
            &&& new.deadline_date is Some && new.scheduled_date is Some ==> new.deadline_date
                == new.scheduled_date
        },
        rule.placement is Backlog ==> {
            &&& new.scheduled_date is None
            &&& new.deadline_date is None
            &&& new.resurface_date is None <==> (rule.interval == 0 && (rule.fixed_dates is None
                || rule.fixed_dates.unwrap()@.len() == 0))
        },
{
}

/// The date a new task is put on.
pub open spec fn date_of(new: NewTaskText) -> Option<Ymd> {
    match new.scheduled_date {
        Some(date) => Some(date),
        None => match new.deadline_date {
            Some(date) => Some(date),
            None => new.resurface_date,
        },
    }
}

/// Days of which each is the turn that follows the one before.
pub open spec fn are_turns(turns: Seq<Ymd>, rule: TaskRule) -> bool {
    forall|k: int, l: int|
        0 <= k && l == k + 1 && l < turns.len() ==> triggered(#[trigger] turns[k], rule) == Some(
            #[trigger] turns[l],
        ) && turns[k].before(turns[l])
}

/// The days a rule without fixed dates steps from and those it has are two
/// things: its turns are its steps.
pub proof fn a_turn_is_a_step_or_a_fixed_date(base: Ymd, rule: TaskRule)
    ensures
        rule.fixed_dates is None || rule.fixed_dates.unwrap().len() == 0 ==> triggered(base, rule)
            == advanced(base, rule),
        rule.fixed_dates matches Some(dates) && dates.len() > 0 ==> triggered(base, rule)
            == next_fixed(base, rule.fixed_dates.unwrap()),
{
}

proof fn lemma_walk(date: Ymd, rule: TaskRule, not_before: Ymd, left: nat) -> (turns: Seq<Ymd>)
    ensures
        are_turns(turns, rule),
        turns.len() > 0,
        turns[0] == date,
        turns.last() == caught_up(date, rule, not_before, left),
        turns.len() <= left + 1,
        forall|k: int| 1 <= k < turns.len() ==> !not_before.before(#[trigger] turns[k]),
        turns.last().before(not_before) && turns.len() <= left ==> match triggered(
            turns.last(),
            rule,
        ) {
            Some(further) => !turns.last().before(further) || not_before.before(further),
            None => true,
        },
    decreases left,
{
    if left > 0 && date.before(not_before) {
        if let Some(further) = triggered(date, rule) {
            if date.before(further) && !not_before.before(further) {
                let rest = lemma_walk(further, rule, not_before, (left - 1) as nat);
                let turns = seq![date] + rest;
                assert forall|k: int, l: int|
                    0 <= k && l == k + 1 && l < turns.len() implies triggered(
                    #[trigger] turns[k],
                    rule,
                ) == Some(#[trigger] turns[l]) && turns[k].before(turns[l]) by {
                    assert(turns[l] == rest[l - 1]);
                    if k > 0 {
                        assert(turns[k] == rest[k - 1]);
                    }
                }
                assert forall|k: int| 1 <= k < turns.len() implies !not_before.before(
                    #[trigger] turns[k],
                ) by {
                    assert(turns[k] == rest[k - 1]);
                }
                assert(turns.last() == rest.last());
                turns
            } else {
                seq![date]
            }
        } else {
            seq![date]
        }
    } else {
        seq![date]
    }
}

/// A scheduled rule lands on a turn of its own: the turns are counted from the
/// template's plan, or its deadline where it has no plan, or from the day it was
/// completed where the rule says so. It is the first turn where that is not yet
/// past, and otherwise the last one that is not after the day the task was
/// completed: the turn after it is still ahead, unless more turns were missed
/// than are walked over.
pub proof fn a_scheduled_instance_lands_on_a_turn(
    template: Task,
    completed: Ymd,
    rule: TaskRecurrence,
    base: Ymd,
    new: NewTaskText,
) -> (turns: Seq<Ymd>)
    requires
        template.recurrence == Some(rule),
        rule.placement is Schedule,
        rule.anchor is FromCompletion ==> base == completed,
        rule.anchor is FromDate ==> match template.scheduled_date {
            Some(date) => base == date@,
            None => optional_day(template.deadline_date) == Some(base),
        },
        next_instance(template, completed) == Some(new),
    ensures
        are_turns(turns, rule@),
        turns.len() > 0,
        triggered(base, rule@) == Some(turns[0]),
        date_of(new) == Some(turns.last()),
        forall|k: int| 1 <= k < turns.len() ==> !completed.before(#[trigger] turns[k]),
        turns.len() <= 10_001,
        turns.last().before(completed) && turns.len() <= 10_000 ==> match triggered(
            turns.last(),
            rule@,
        ) {
            Some(further) => !turns.last().before(further) || completed.before(further),
            None => true,
        },
{
    let first = triggered(base, rule@)->0;
    lemma_walk(first, rule@, completed, MAX_CATCHUP_STEPS as nat)
}

/// A rule in the backlog brings its task back on the turn that follows the day
/// it was completed.
pub proof fn a_backlog_instance_comes_back_on_the_next_turn(
    template: Task,
    completed: Ymd,
    rule: TaskRecurrence,
    new: NewTaskText,
)
    requires
        template.recurrence == Some(rule),
        rule.placement is Backlog,
        next_instance(template, completed) == Some(new),
    ensures
        new.resurface_date is Some ==> new.resurface_date == triggered(completed, rule@),
{
}

/// No instance lies past the end of its rule.
pub proof fn nothing_comes_after_the_end(
    template: Task,
    completed: Ymd,
    rule: TaskRecurrence,
    end: Ymd,
    new: NewTaskText,
)
    requires
        template.recurrence == Some(rule),
        rule@.end == Some(EndRule::OnDate { date: end }),
        next_instance(template, completed) == Some(new),
    ensures
        date_of(new) matches Some(date) ==> !end.before(date),
{
}

/// A rule that has no last day, and a day to count from, always has a next
/// instance where there is a next turn. A task without a rule has none.
pub proof fn an_endless_rule_goes_on(template: Task, completed: Ymd)
    ensures
        template.recurrence is None ==> next_instance(template, completed) is None,
        template.recurrence matches Some(rule) && !(rule@.end matches Some(EndRule::OnDate { .. }))
            ==> {
            let rule = template.recurrence.unwrap();
            &&& rule.placement is Backlog ==> (next_instance(template, completed) is Some <==> ((
            rule.interval == 0 && (rule.fixed_dates is None || rule.fixed_dates.unwrap()@.len()
                == 0)) || triggered(completed, rule@) is Some))
            &&& rule.placement is Schedule && rule.anchor is FromCompletion ==> (next_instance(
                template,
                completed,
            ) is Some <==> triggered(completed, rule@) is Some)
            &&& rule.placement is Schedule && rule.anchor is FromDate ==> (next_instance(
                template,
                completed,
            ) is Some <==> match (template.scheduled_date, template.deadline_date) {
                (Some(date), _) => triggered(date@, rule@) is Some,
                (None, Some(date)) => triggered(date@, rule@) is Some,
                (None, None) => false,
            })
        },
{
}

/// A daily rule counted from its date keeps its rhythm: the next instance lies a
/// whole number of intervals after the task it follows, and so close to the day
/// the task was completed that no further turn has come by then.
pub proof fn a_daily_rule_keeps_its_rhythm(
    template: Task,
    completed: Ymd,
    rule: TaskRecurrence,
    base: Ymd,
    new: NewTaskText,
)
    requires
        template.recurrence == Some(rule),
        rule.placement is Schedule,
        rule.anchor is FromDate,
        rule.frequency is Daily,
        rule.fixed_dates is None,
        template.scheduled_date is Some && template.scheduled_date.unwrap()@ == base,
        base.valid(),
        completed.valid(),
        next_instance(template, completed) == Some(new),
    ensures
        ({
            let n: int = if rule.interval == 0 {
                1
            } else {
                rule.interval as int
            };
            let date = date_of(new)->0;
            &&& date_of(new) is Some
            &&& date.valid()
            &&& (date.number() - base.number()) % n == 0
            &&& date.number() >= base.number() + n
            &&& date.number() == base.number() + n || date.number() <= completed.number()
            &&& date.number() + n > completed.number() || date.number() - base.number() == n * 10_001
        }),
{
    let n = stride(rule.interval);
    let first = triggered(base, rule@)->0;
    a_step_is_as_long_as_the_interval(base, rule@);
    assert(first.number() - base.number() == n * 1);
    lemma_daily_walk(first, rule@, completed, MAX_CATCHUP_STEPS as nat);
    let date = caught_up(first, rule@, completed, MAX_CATCHUP_STEPS as nat);
    let m = daily_steps(first, rule@, completed, MAX_CATCHUP_STEPS as nat);
    assert(date.number() - base.number() == n * (m + 1)) by (nonlinear_arith)
        requires
            date.number() - first.number() == n * m,
            first.number() - base.number() == n * 1,
    ;
    assert((n * (m + 1)) % n == 0) by {
        vstd::arithmetic::div_mod::lemma_mod_multiples_basic(m + 1, n);
        assert(n * (m + 1) == (m + 1) * n) by (nonlinear_arith);
    }
    assert(n * (m + 1) >= n) by (nonlinear_arith)
        requires
            n > 0,
            m >= 0,
    ;
    if m == 0 {
        assert(n * m == 0) by (nonlinear_arith)
            requires
                m == 0,
        ;
    }
}

/// How many steps a daily rule catches up.
spec fn daily_steps(date: Ymd, rule: TaskRule, not_before: Ymd, left: nat) -> int
    decreases left,
{
    if left == 0 || !date.before(not_before) {
        0
    } else {
        match triggered(date, rule) {
            Some(further) => if date.before(further) && !not_before.before(further) {
                1 + daily_steps(further, rule, not_before, (left - 1) as nat)
            } else {
                0
            },
            None => 0,
        }
    }
}

proof fn lemma_daily_walk(date: Ymd, rule: TaskRule, not_before: Ymd, left: nat)
    requires
        date.valid(),
        not_before.valid(),
        rule.frequency is Daily,
        rule.fixed_dates is None,
    ensures
        ({
            let end = caught_up(date, rule, not_before, left);
            let m = daily_steps(date, rule, not_before, left);
            let n = stride(rule.interval);
            &&& end.valid()
            &&& 0 <= m <= left
            &&& end.number() - date.number() == n * m
            &&& m > 0 ==> end.number() <= not_before.number()
            &&& end.number() + n > not_before.number() || m == left
        }),
    decreases left,
{
    let n = stride(rule.interval);
    assert(n * 0 == 0) by (nonlinear_arith);
    if left > 0 && date.before(not_before) {
        a_step_is_as_long_as_the_interval(date, rule);
        lemma_day_bounds();
        lemma_number_bounds(not_before);
        if let Some(further) = triggered(date, rule) {
            day_numbers_follow_the_calendar(date, further);
            day_numbers_follow_the_calendar(not_before, further);
            if date.before(further) && !not_before.before(further) {
                lemma_daily_walk(further, rule, not_before, (left - 1) as nat);
                let m = daily_steps(further, rule, not_before, (left - 1) as nat);
                assert(n + n * m == n * (m + 1)) by (nonlinear_arith);
                day_numbers_follow_the_calendar(further, not_before);
            }
        }
    } else {
        day_numbers_follow_the_calendar(date, not_before);
    }
}

/// The record of a turn is finished and repeats nothing: it keeps what was done,
/// its dates and who did it, and has no rule, no series, no way back into the
/// backlog, no place and nothing that rings.
pub proof fn the_record_of_a_turn_is_finished(completed: Task)
    ensures
        ({
            let r = record_of(completed);
            &&& r.status is Completed
            &&& r.recurrence is None
            &&& r.series_id is None
            &&& r.resurface_date is None
            &&& r.parent_id is None
            &&& r.section_id is None
            &&& r.reminders.len() == 0
            &&& r.sound is None
            &&& r.title == completed.title@
            &&& r.description == optional_text(completed.description)
            &&& r.priority == completed.priority
            &&& r.effort == completed.effort
            &&& r.scheduled_date == optional_day(completed.scheduled_date)
            &&& r.scheduled_time == completed.scheduled_time
            &&& r.scheduled_end_time == completed.scheduled_end_time
            &&& r.deadline_date == optional_day(completed.deadline_date)
            &&& r.deadline_time == completed.deadline_time
            &&& r.deadline_reminder_days == completed.deadline_reminder_days
            &&& r.color_label == optional_label(completed.color_label)
            &&& r.assignees == user_texts(completed.assignees@)
        }),
{
}

} // verus!
