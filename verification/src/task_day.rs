//! Which tasks a calendar day shows, in which order, with which time and which
//! marker, and how the backlog rail cuts its weeks.
//!
//! For every day asked, the tasks on it are POSITIONS in the input, in display
//! order, each with the three facts a chip is drawn from: the time it slots
//! into (if any), the end of its planned block (if any), and whether it sits
//! here because of its deadline rather than its plan.
//!
//! Nothing here reads a clock or a time zone. Which day is "today" is the
//! caller's to say. And the LOCAL day a task was completed on travels in as
//! [`DayTask::completed_day`].

use vstd::prelude::*;

use crate::civil::{
    add_days, day_at, day_numbers_follow_the_calendar, days_from_monday, every_number_has_a_day,
    first_day_number, last_day_number, lemma_day_bounds, optional_day, Date, TimeOfDay, Ymd,
};
use crate::collation::{language_of, title_comes_first, title_first, CollationLanguage};
use crate::order::{
    all_below, in_order, is_an_order, is_ascending, is_ordered, lemma_ascending, lemma_kept,
    ordering_keeps_every_item, ordering_orders, ordering_puts_in_turn, pick, positions,
    positions_below, stable_order, those,
};
use crate::task_assignment::{is_mine, is_mine_or_unassigned, optional_user_id, user_ids};
use crate::task_grouping::ListUser;
use crate::text::{contains_text, same, texts};
use crate::types::{TaskStatus, TaskUser};

verus! {

/// What the day rule reads of a task, and the one thing only the caller can
/// know.
#[derive(Debug, Clone, PartialEq, Eq)]
pub struct DayTask {
    pub id: String,
    pub list_id: String,
    pub title: String,
    pub status: TaskStatus,
    /// The priority band the task sorts in, the first band being 0. How many
    /// bands there are is the user's setting.
    pub band: u32,
    pub scheduled_date: Option<Date>,
    pub scheduled_time: Option<TimeOfDay>,
    pub scheduled_end_time: Option<TimeOfDay>,
    pub deadline_date: Option<Date>,
    pub deadline_time: Option<TimeOfDay>,
    pub parent_id: Option<String>,
    pub assignees: Vec<TaskUser>,
    /// The LOCAL day the task was completed on, or `None` when it carries no
    /// completion instant. A finished task with no planned day belongs to this
    /// day.
    pub completed_day: Option<Date>,
}

/// Everything the day rule needs, and nothing it does not.
#[derive(Debug, Clone, PartialEq, Eq)]
pub struct DayInput {
    pub tasks: Vec<DayTask>,
    /// The days asked about. The week view asks for all of its days at once.
    pub days: Vec<Date>,
    /// Lists whose completed tasks are shown: the per-list opt-in. Empty means
    /// none: done is done.
    pub completed_visible: Vec<String>,
    /// The connected users of lists, for the ownership filter: on a shared list
    /// a task assigned to a concrete OTHER user is theirs, so it is hidden from
    /// MY calendar; mine and unassigned stay. A list absent here or without a
    /// user keeps everything.
    pub current_user_by_list: Vec<ListUser>,
    /// The app's language tag, for the collation of titles. Empty answers the
    /// default, like every unknown tag.
    pub language: String,
}

/// One task on one day: where it is in the input, and what its chip carries.
#[derive(Debug, Clone, Copy, PartialEq, Eq, Structural)]
pub struct DayTaskRow {
    /// Position of the task in [`DayInput::tasks`].
    pub task: usize,
    /// The time the task slots into on this day: its scheduled time when
    /// scheduled here, else its deadline time when due here, else nothing.
    pub time: Option<TimeOfDay>,
    /// The end of the task's planned block on this day. Only the scheduled
    /// slot can carry a block: a deadline is a moment.
    pub end_time: Option<TimeOfDay>,
    /// True when the task sits here BECAUSE of its deadline, not its plan. A
    /// task scheduled and due on the same day is the scheduled chip.
    pub deadline_chip: bool,
}

/// The rows of one day.
#[derive(Debug, Clone, PartialEq, Eq)]
pub struct DayRows {
    pub day: Date,
    pub rows: Vec<DayTaskRow>,
}

/// The two calendar weeks the backlog rail splits its deadlines into, as
/// inclusive day bounds.
#[derive(Debug, Clone, Copy, PartialEq, Eq, Structural)]
pub struct BacklogWeeks {
    /// First day of the week `today` falls in.
    pub this_week_start: Date,
    /// Last day of that week, inclusive.
    pub this_week_end: Date,
    pub next_week_start: Date,
    /// Last day of the following week, inclusive.
    pub next_week_end: Date,
}

/// The question [`backlog_weeks`] answers.
#[derive(Debug, Clone, PartialEq, Eq)]
pub struct BacklogWeeksInput {
    /// The caller's today. A parameter, never the clock.
    pub today: Date,
    /// The user's own setting: 0 = Sunday to 6 = Saturday.
    pub week_starts_on: u32,
}

/// The question [`split_deadlines_by_week`] answers.
#[derive(Debug, Clone, PartialEq, Eq)]
pub struct DeadlineSplitInput {
    /// The deadline of each item, in the caller's order; `None` for an item
    /// without one.
    pub deadlines: Vec<Option<Date>>,
    pub weeks: BacklogWeeks,
}

/// Deadline-carrying items by week, as positions in the input, each bucket in
/// input order.
#[derive(Debug, Clone, PartialEq, Eq)]
pub struct DeadlineSplit {
    /// Due this calendar week, or already overdue, which is the most urgent
    /// thing the rail holds and belongs at the top, not in the tail.
    pub this_week: Vec<usize>,
    pub next_week: Vec<usize>,
    pub later: Vec<usize>,
}

// ---------------------------------------------------------------------------
// One task on one day
// ---------------------------------------------------------------------------

fn is_on(date: Option<Date>, day: Date) -> (r: bool)
    ensures
        r == (optional_day(date) == Some(day@)),
{
    match date {
        Some(d) => d.same_day(&day),
        None => false,
    }
}

/// The time a task slots into on a day.
pub open spec fn time_at(task: DayTask, day: Ymd) -> Option<TimeOfDay> {
    if optional_day(task.scheduled_date) == Some(day) && task.scheduled_time is Some {
        task.scheduled_time
    } else if optional_day(task.deadline_date) == Some(day) {
        task.deadline_time
    } else {
        None
    }
}

/// The time `task` slots into on `day`, if any. See [`DayTaskRow::time`].
pub fn time_on_day(task: &DayTask, day: Date) -> (r: Option<TimeOfDay>)
    ensures
        r == time_at(*task, day@),
{
    if is_on(task.scheduled_date, day) && task.scheduled_time.is_some() {
        task.scheduled_time
    } else if is_on(task.deadline_date, day) {
        task.deadline_time
    } else {
        None
    }
}

/// The end of a task's planned block on a day.
pub open spec fn end_time_at(task: DayTask, day: Ymd) -> Option<TimeOfDay> {
    if optional_day(task.scheduled_date) == Some(day) && task.scheduled_time is Some {
        task.scheduled_end_time
    } else {
        None
    }
}

/// The end of `task`'s planned block on `day`, if any. See
/// [`DayTaskRow::end_time`].
pub fn end_time_on_day(task: &DayTask, day: Date) -> (r: Option<TimeOfDay>)
    ensures
        r == end_time_at(*task, day@),
{
    if is_on(task.scheduled_date, day) && task.scheduled_time.is_some() {
        task.scheduled_end_time
    } else {
        None
    }
}

/// Whether a task sits on a day because of its deadline.
pub open spec fn due_alone(task: DayTask, day: Ymd) -> bool {
    optional_day(task.deadline_date) == Some(day) && optional_day(task.scheduled_date) != Some(day)
}

/// Whether `task` sits on `day` because of its deadline. See
/// [`DayTaskRow::deadline_chip`].
pub fn is_deadline_chip(task: &DayTask, day: Date) -> (r: bool)
    ensures
        r == due_alone(*task, day@),
{
    is_on(task.deadline_date, day) && !is_on(task.scheduled_date, day)
}

/// The connected user of a list among the first `n` entries.
pub open spec fn user_place(users: Seq<ListUser>, list_id: Seq<char>, n: int) -> Option<int>
    decreases n,
{
    if n <= 0 {
        None
    } else if users[n - 1].list_id@ == list_id {
        Some(n - 1)
    } else {
        user_place(users, list_id, n - 1)
    }
}

/// The id of the connected user of a list; of several entries, the last one
/// counts.
pub open spec fn user_of(users: Seq<ListUser>, list_id: Seq<char>) -> Option<Seq<char>> {
    match user_place(users, list_id, users.len() as int) {
        Some(k) => match users[k].user {
            Some(user) => Some(user.id@),
            None => None,
        },
        None => None,
    }
}

/// A task with a parent. An EMPTY parent id is no parent.
pub open spec fn is_subtask(task: DayTask) -> bool {
    task.parent_id matches Some(id) && id@.len() > 0
}

/// Whether a task shows on a day.
///
/// A task surfaces on a day for either of two independent reasons: the user
/// planned it there, or it is due there and has no planned day. A task with
/// both surfaces ONCE, on its planned day. A finished task with no planned day
/// belongs to the day it was finished, where that is known, but a finished task
/// the user PLANNED onto a day keeps that day.
pub open spec fn shows(input: DayInput, task: DayTask, day: Ymd) -> bool {
    // A subtask surfaces only when it carries its own date.
    &&& !(is_subtask(task) && task.scheduled_date is None && task.deadline_date is None)
    &&& task.status !is Cancelled
    &&& task.status is Completed ==> texts(input.completed_visible@).contains(task.list_id@)
    &&& is_mine(
        user_ids(task.assignees@),
        user_of(input.current_user_by_list@, task.list_id@),
    )
    &&& if task.status is Completed && task.scheduled_date is None && task.completed_day is Some {
        optional_day(task.completed_day) == Some(day)
    } else if task.scheduled_date is Some {
        optional_day(task.scheduled_date) == Some(day)
    } else {
        optional_day(task.deadline_date) == Some(day)
    }
}

fn find_user<'a>(users: &'a [ListUser], list_id: &str) -> (r: Option<&'a TaskUser>)
    ensures
        optional_user_id(r) == user_of(users@, list_id@),
{
    let mut n: usize = users.len();
    while n > 0
        invariant
            n <= users.len(),
            user_place(users@, list_id@, users@.len() as int) == user_place(
                users@,
                list_id@,
                n as int,
            ),
        decreases n,
    {
        if same(users[n - 1].list_id.as_str(), list_id) {
            return match &users[n - 1].user {
                Some(user) => Some(user),
                None => None,
            };
        }
        n = n - 1;
    }
    None
}

fn shows_on(input: &DayInput, task: &DayTask, day: Date) -> (r: bool)
    ensures
        r == shows(*input, *task, day@),
{
    let has_parent = match &task.parent_id {
        Some(id) => !id.as_str().is_empty(),
        None => false,
    };
    if has_parent && task.scheduled_date.is_none() && task.deadline_date.is_none() {
        return false;
    }
    let completed = match task.status {
        TaskStatus::Cancelled => {
            return false;
        },
        TaskStatus::Completed => true,
        _ => false,
    };
    if completed && !contains_text(input.completed_visible.as_slice(), task.list_id.as_str()) {
        return false;
    }
    let me = find_user(input.current_user_by_list.as_slice(), task.list_id.as_str());
    if !is_mine_or_unassigned(task.assignees.as_slice(), me) {
        return false;
    }
    if completed && task.scheduled_date.is_none() && task.completed_day.is_some() {
        return is_on(task.completed_day, day);
    }
    if task.scheduled_date.is_some() {
        is_on(task.scheduled_date, day)
    } else {
        is_on(task.deadline_date, day)
    }
}

// ---------------------------------------------------------------------------
// Every task on every day
// ---------------------------------------------------------------------------

/// The order of tasks everywhere: priority band first, then the title, natural.
pub open spec fn day_order(input: DayInput) -> spec_fn(usize, usize) -> bool {
    |a: usize, b: usize|
        {
            let x = input.tasks@[a as int];
            let y = input.tasks@[b as int];
            x.band < y.band || x.band == y.band && title_first(
                x.title@,
                y.title@,
                language_of(input.language@),
            )
        }
}

/// Which tasks show on a day.
pub open spec fn on_day(input: DayInput, day: Ymd) -> spec_fn(usize) -> bool {
    |i: usize| shows(input, input.tasks@[i as int], day)
}

/// The positions of the tasks on a day, in display order.
pub open spec fn tasks_at(input: DayInput, day: Ymd) -> Seq<usize> {
    in_order(
        those(positions(input.tasks@.len() as int), on_day(input, day)),
        day_order(input),
    )
}

/// What the chip of a task carries on a day.
pub open spec fn row_at(input: DayInput, i: usize, day: Ymd) -> DayTaskRow {
    let task = input.tasks@[i as int];
    DayTaskRow {
        task: i,
        time: time_at(task, day),
        end_time: end_time_at(task, day),
        deadline_chip: due_alone(task, day),
    }
}

/// The rows of a day.
pub open spec fn rows_at(input: DayInput, day: Ymd) -> Seq<DayTaskRow> {
    tasks_at(input, day).map_values(|i: usize| row_at(input, i, day))
}

/// A day put into a list of days in calendar order, where it is not yet there.
pub open spec fn with_day(list: Seq<Ymd>, day: Ymd) -> Seq<Ymd>
    decreases list.len(),
{
    if list.len() == 0 {
        seq![day]
    } else if list.last() == day {
        list
    } else if list.last().before(day) {
        list.push(day)
    } else {
        with_day(list.drop_last(), day).push(list.last())
    }
}

/// The days asked about, each once, in calendar order.
pub open spec fn asked_days(days: Seq<Date>) -> Seq<Ymd>
    decreases days.len(),
{
    if days.len() == 0 {
        Seq::empty()
    } else {
        with_day(asked_days(days.drop_last()), days.last()@)
    }
}

/// What a list of days means.
spec fn day_views(list: Seq<Date>) -> Seq<Ymd> {
    Seq::new(list.len(), |i: int| list[i]@)
}

fn put_day(list: Vec<Date>, day: Date) -> (r: Vec<Date>)
    ensures
        day_views(r@) == with_day(day_views(list@), day@),
{
    let ghost views = day_views(list@);
    let mut at: usize = list.len();
    assert(views.take(at as int) =~= views);
    assert(with_day(views, day@) + views.skip(at as int) =~= with_day(views, day@));
    // The days behind `at` come after the new one.
    while at > 0 && !list[at - 1].same_day(&day) && !list[at - 1].before(&day)
        invariant
            at <= list.len(),
            views == day_views(list@),
            with_day(views, day@) == with_day(views.take(at as int), day@) + views.skip(at as int),
        decreases at,
    {
        let ghost front = views.take(at as int);
        assert(front.drop_last() =~= views.take(at - 1));
        assert(front.last() == views[at - 1]);
        assert(with_day(views.take(at - 1), day@).push(views[at - 1]) + views.skip(at as int)
            =~= with_day(views.take(at - 1), day@) + views.skip(at - 1));
        at = at - 1;
    }
    let ghost front = views.take(at as int);
    if at > 0 && list[at - 1].same_day(&day) {
        assert(front.last() == day@);
        assert(front + views.skip(at as int) =~= views);
        return list;
    }
    let mut out = list;
    out.insert(at, day);
    proof {
        if at > 0 {
            assert(front.last() == views[at - 1]);
            assert(with_day(front, day@) == front.push(day@));
        } else {
            assert(front =~= Seq::empty());
        }
        assert(day_views(out@) =~= with_day(front, day@) + views.skip(at as int));
    }
    out
}

fn find_rows(input: &DayInput, day: Date) -> (r: Vec<DayTaskRow>)
    ensures
        r@ == rows_at(*input, day@),
{
    let tasks = &input.tasks;
    let ghost keep = on_day(*input, day@);
    let wanted = |i: usize| -> (c: bool)
        requires
            i < tasks@.len(),
        ensures
            c == shows(*input, tasks@[i as int], day@),
        { shows_on(input, &tasks[i], day) };
    let all = positions_below(tasks.len());
    let shown = pick(all.as_slice(), tasks.len(), wanted, Ghost(keep));
    let language = CollationLanguage::from_tag(input.language.as_str());
    let first = |a: usize, b: usize| -> (c: bool)
        requires
            a < tasks@.len(),
            b < tasks@.len(),
        ensures
            c == (tasks@[a as int].band < tasks@[b as int].band || tasks@[a as int].band
                == tasks@[b as int].band && title_first(
                tasks@[a as int].title@,
                tasks@[b as int].title@,
                language,
            )),
        {
            tasks[a].band < tasks[b].band || (tasks[a].band == tasks[b].band && title_comes_first(
                tasks[a].title.as_str(),
                tasks[b].title.as_str(),
                language,
            ))
        };
    let sorted = stable_order(shown.as_slice(), tasks.len(), first, Ghost(day_order(*input)));
    let mut rows: Vec<DayTaskRow> = Vec::new();
    let mut i: usize = 0;
    while i < sorted.len()
        invariant
            i <= sorted.len(),
            tasks == input.tasks,
            sorted@ == tasks_at(*input, day@),
            all_below(sorted@, tasks@.len() as int),
            rows@ == rows_at(*input, day@).take(i as int),
        decreases sorted.len() - i,
    {
        let at: usize = sorted[i];
        rows.push(
            DayTaskRow {
                task: at,
                time: time_on_day(&tasks[at], day),
                end_time: end_time_on_day(&tasks[at], day),
                deadline_chip: is_deadline_chip(&tasks[at], day),
            },
        );
        i = i + 1;
        assert(rows@ =~= rows_at(*input, day@).take(i as int));
    }
    assert(rows@ =~= rows_at(*input, day@));
    rows
}

/// The tasks on each day asked, in display order, the same order as the task
/// list (priority band, then natural title order), so a day's planned work
/// reads identically on every surface. Each day stands once, in calendar order.
pub fn tasks_on_days(input: &DayInput) -> (r: Vec<DayRows>)
    ensures
        r@.len() == asked_days(input.days@).len(),
        forall|k: int|
            0 <= k < r@.len() ==> (#[trigger] r@[k]).day@ == asked_days(input.days@)[k]
                && r@[k].rows@ == rows_at(*input, r@[k].day@),
{
    let mut days: Vec<Date> = Vec::new();
    let mut i: usize = 0;
    assert(day_views(days@) =~= Seq::empty());
    while i < input.days.len()
        invariant
            i <= input.days@.len(),
            day_views(days@) == asked_days(input.days@.take(i as int)),
        decreases input.days@.len() - i,
    {
        assert(input.days@.take(i as int + 1).drop_last() =~= input.days@.take(i as int));
        days = put_day(days, input.days[i]);
        i = i + 1;
    }
    assert(input.days@.take(i as int) =~= input.days@);
    let mut out: Vec<DayRows> = Vec::new();
    let mut k: usize = 0;
    while k < days.len()
        invariant
            k <= days.len(),
            out@.len() == k,
            day_views(days@) == asked_days(input.days@),
            forall|j: int|
                0 <= j < k ==> (#[trigger] out@[j]).day@ == asked_days(input.days@)[j]
                    && out@[j].rows@ == rows_at(*input, out@[j].day@),
        decreases days.len() - k,
    {
        let day = days[k];
        assert(day_views(days@)[k as int] == day@);
        let rows = find_rows(input, day);
        out.push(DayRows { day, rows });
        k = k + 1;
    }
    out
}

// ---------------------------------------------------------------------------
// Weeks
// ---------------------------------------------------------------------------

/// How many days before `today` its week began.
pub open spec fn days_into_week(today: Ymd, week_starts_on: u32) -> int {
    (today.weekday() + 1 - week_starts_on) % 7
}

/// The current and following CALENDAR week around `today`, as inclusive day
/// bounds.
///
/// Calendar weeks, not rolling windows: "this week" ends on the week's last
/// day however near that is.
///
/// `week_starts_on` is the user's own setting (0 = Sunday to 6 = Saturday), so
/// a Sunday week runs Sunday to Saturday and a Monday week Monday to Sunday.
/// Both weeks must lie in the calendar's range.
pub fn backlog_weeks(today: Date, week_starts_on: u32) -> (r: BacklogWeeks)
    requires
        first_day_number() <= today@.number() - days_into_week(today@, week_starts_on),
        today@.number() - days_into_week(today@, week_starts_on) + 13 <= last_day_number(),
    ensures
        ({
            let start = today@.number() - days_into_week(today@, week_starts_on);
            &&& r.this_week_start@ == day_at(start)
            &&& r.this_week_end@ == day_at(start + 6)
            &&& r.next_week_start@ == day_at(start + 7)
            &&& r.next_week_end@ == day_at(start + 13)
        }),
{
    proof {
        lemma_day_bounds();
    }
    let place: u32 = days_from_monday(today);
    let back: i64 = ((place + 1) % 7 + 7 - week_starts_on % 7) as i64 % 7;
    assert(back == days_into_week(today@, week_starts_on));
    BacklogWeeks {
        this_week_start: add_days(today, -back).unwrap(),
        this_week_end: add_days(today, 6 - back).unwrap(),
        next_week_start: add_days(today, 7 - back).unwrap(),
        next_week_end: add_days(today, 13 - back).unwrap(),
    }
}

/// Which of the three buckets a deadline falls into: 0 for this week and all
/// before it, 1 for next week, 2 for later.
pub open spec fn bucket(due: Ymd, weeks: BacklogWeeks) -> int {
    if !weeks.this_week_end@.before(due) {
        0
    } else if !weeks.next_week_end@.before(due) {
        1
    } else {
        2
    }
}

/// Which items fall into a bucket.
pub open spec fn in_bucket(deadlines: Seq<Option<Date>>, weeks: BacklogWeeks, which: int) -> spec_fn(
    usize,
) -> bool {
    |i: usize|
        match deadlines[i as int] {
            Some(due) => bucket(due@, weeks) == which,
            None => false,
        }
}

fn find_bucket(deadlines: &[Option<Date>], weeks: &BacklogWeeks, which: u32) -> (r: Vec<usize>)
    ensures
        r@ == those(
            positions(deadlines@.len() as int),
            in_bucket(deadlines@, *weeks, which as int),
        ),
{
    let ghost keep = in_bucket(deadlines@, *weeks, which as int);
    let wanted = |i: usize| -> (c: bool)
        requires
            i < deadlines@.len(),
        ensures
            c == keep(i),
        {
            match &deadlines[i] {
                Some(due) => {
                    let mine: u32 = if !weeks.this_week_end.before(due) {
                        0
                    } else if !weeks.next_week_end.before(due) {
                        1
                    } else {
                        2
                    };
                    mine == which
                },
                None => false,
            }
        };
    let all = positions_below(deadlines.len());
    pick(all.as_slice(), deadlines.len(), wanted, Ghost(keep))
}

/// Deadline-carrying items into this week, next week and everything after,
/// keeping the caller's order within each bucket. An item without a deadline
/// is in no bucket. A deadline that has already passed goes with THIS week:
/// it is the most urgent thing the rail holds.
pub fn split_deadlines_by_week(deadlines: &[Option<Date>], weeks: &BacklogWeeks) -> (r:
    DeadlineSplit)
    ensures
        r.this_week@ == those(
            positions(deadlines@.len() as int),
            in_bucket(deadlines@, *weeks, 0),
        ),
        r.next_week@ == those(
            positions(deadlines@.len() as int),
            in_bucket(deadlines@, *weeks, 1),
        ),
        r.later@ == those(positions(deadlines@.len() as int), in_bucket(deadlines@, *weeks, 2)),
{
    DeadlineSplit {
        this_week: find_bucket(deadlines, weeks, 0),
        next_week: find_bucket(deadlines, weeks, 1),
        later: find_bucket(deadlines, weeks, 2),
    }
}

// ---------------------------------------------------------------------------
// Laws
// ---------------------------------------------------------------------------

/// A task shows on one day at most: an appointment that is both planned and due
/// does not read as two tasks.
pub proof fn a_task_shows_on_one_day(input: DayInput, task: DayTask, a: Ymd, b: Ymd)
    requires
        shows(input, task, a),
        shows(input, task, b),
    ensures
        a == b,
{
}

/// A cancelled task shows nowhere, and neither does a completed one in a list
/// that does not show them.
pub proof fn what_is_over_stays_hidden(input: DayInput, task: DayTask, day: Ymd)
    requires
        task.status is Cancelled || task.status is Completed && !texts(
            input.completed_visible@,
        ).contains(task.list_id@),
    ensures
        !shows(input, task, day),
{
}

/// Every item with a deadline falls into exactly one bucket, and one without
/// falls into none.
pub proof fn each_deadline_falls_into_one_bucket(
    deadlines: Seq<Option<Date>>,
    weeks: BacklogWeeks,
    i: usize,
)
    requires
        i < deadlines.len() <= usize::MAX,
    ensures
        ({
            let all = positions(deadlines.len() as int);
            let now = those(all, in_bucket(deadlines, weeks, 0)).contains(i);
            let next = those(all, in_bucket(deadlines, weeks, 1)).contains(i);
            let later = those(all, in_bucket(deadlines, weeks, 2)).contains(i);
            &&& deadlines[i as int] is None ==> !now && !next && !later
            &&& deadlines[i as int] is Some ==> now || next || later
            &&& !(now && next) && !(now && later) && !(next && later)
        }),
{
    let all = positions(deadlines.len() as int);
    assert(all[i as int] == i);
    lemma_kept(all, in_bucket(deadlines, weeks, 0), i);
    lemma_kept(all, in_bucket(deadlines, weeks, 1), i);
    lemma_kept(all, in_bucket(deadlines, weeks, 2), i);
}

/// The week around today begins on the day the user's weeks begin on, holds
/// today, and is followed by the next one.
pub proof fn the_week_holds_today(today: Ymd, week_starts_on: u32)
    requires
        today.valid(),
        week_starts_on < 7,
        first_day_number() <= today.number() - days_into_week(today, week_starts_on),
        today.number() - days_into_week(today, week_starts_on) + 13 <= last_day_number(),
    ensures
        ({
            let start = today.number() - days_into_week(today, week_starts_on);
            &&& start <= today.number() <= start + 6
            &&& day_at(start).number() == start
            &&& (day_at(start).weekday() + 1) % 7 == week_starts_on
        }),
{
    let start = today.number() - days_into_week(today, week_starts_on);
    every_number_has_a_day(start);
}

// ---------------------------------------------------------------------------
// What a day shows
// ---------------------------------------------------------------------------

/// The day a task belongs to: the one it is planned for; without one, the day a
/// completed one was finished on, where that is known; else its deadline.
pub open spec fn belongs_to(task: DayTask, day: Ymd) -> bool {
    if task.scheduled_date is Some {
        task.scheduled_date->0@ == day
    } else if task.status is Completed && task.completed_day is Some {
        task.completed_day->0@ == day
    } else {
        task.deadline_date is Some && task.deadline_date->0@ == day
    }
}

/// Somebody else's task: the last entry for its list names a user, people hold
/// the task, and that user is none of them.
pub open spec fn is_others(users: Seq<ListUser>, task: DayTask) -> bool {
    exists|k: int|
        0 <= k < users.len() && is_last_entry(users, task.list_id@, k) && (
        #[trigger] users[k]).user is Some && task.assignees@.len() > 0 && forall|a: int|
            0 <= a < task.assignees@.len() ==> (#[trigger] task.assignees@[a]).id@
                != users[k].user->0.id@
}

pub open spec fn is_last_entry(users: Seq<ListUser>, list_id: Seq<char>, k: int) -> bool {
    &&& users[k].list_id@ == list_id
    &&& forall|j: int| k < j < users.len() ==> (#[trigger] users[j]).list_id@ != list_id
}

proof fn lemma_user_place(users: Seq<ListUser>, list_id: Seq<char>, n: int)
    requires
        0 <= n <= users.len(),
        forall|j: int| n <= j < users.len() ==> (#[trigger] users[j]).list_id@ != list_id,
    ensures
        match user_place(users, list_id, n) {
            Some(k) => 0 <= k < users.len() && is_last_entry(users, list_id, k),
            None => forall|j: int| 0 <= j < users.len() ==> (#[trigger] users[j]).list_id@ != list_id,
        },
    decreases n,
{
    if n > 0 && users[n - 1].list_id@ != list_id {
        assert forall|j: int| n - 1 <= j < users.len() implies (#[trigger] users[j]).list_id@
            != list_id by {}
        lemma_user_place(users, list_id, n - 1);
    }
}

proof fn lemma_is_others(users: Seq<ListUser>, task: DayTask)
    ensures
        is_mine(user_ids(task.assignees@), user_of(users, task.list_id@)) <==> !is_others(
            users,
            task,
        ),
{
    let list_id = task.list_id@;
    let ids = user_ids(task.assignees@);
    lemma_user_place(users, list_id, users.len() as int);
    match user_place(users, list_id, users.len() as int) {
        Some(p) => {
            if users[p].user is Some {
                let me = users[p].user->0.id@;
                if ids.contains(me) {
                    let a = choose|a: int| 0 <= a < ids.len() && ids[a] == me;
                    assert(task.assignees@[a].id@ == me);
                } else {
                    assert forall|a: int| 0 <= a < task.assignees@.len() implies (
                    #[trigger] task.assignees@[a]).id@ != me by {
                        assert(ids[a] == task.assignees@[a].id@);
                        assert(ids.contains(ids[a]));
                    }
                }
            }
            if is_others(users, task) {
                let k = choose|k: int|
                    0 <= k < users.len() && is_last_entry(users, list_id, k) && (
                    #[trigger] users[k]).user is Some && task.assignees@.len() > 0 && forall|
                        a: int,
                    |
                        0 <= a < task.assignees@.len() ==> (#[trigger] task.assignees@[a]).id@
                            != users[k].user->0.id@;
                if k < p {
                    assert(users[p].list_id@ != list_id);
                }
                if p < k {
                    assert(users[k].list_id@ != list_id);
                }
            } else if users[p].user is Some && ids.len() > 0 {
                assert(is_last_entry(users, list_id, p));
            }
        },
        None => {},
    }
}

/// A task shows on the day it belongs to, unless it is cancelled, or completed in
/// a list that does not show such tasks, or somebody else's, or a subtask without
/// a date of its own.
pub proof fn a_task_shows_where_it_belongs(input: DayInput, task: DayTask, day: Ymd)
    ensures
        shows(input, task, day) <==> {
            &&& belongs_to(task, day)
            &&& !(task.status is Cancelled)
            &&& task.status is Completed ==> exists|k: int|
                0 <= k < input.completed_visible@.len() && (
                #[trigger] input.completed_visible@[k])@ == task.list_id@
            &&& !is_others(input.current_user_by_list@, task)
            &&& task.scheduled_date is Some || task.deadline_date is Some || task.parent_id is None
                || task.parent_id->0@.len() == 0
        },
{
    lemma_is_others(input.current_user_by_list@, task);
    let names = texts(input.completed_visible@);
    if names.contains(task.list_id@) {
        let k = choose|k: int| 0 <= k < names.len() && names[k] == task.list_id@;
        assert(input.completed_visible@[k]@ == task.list_id@);
    }
    if exists|k: int|
        0 <= k < input.completed_visible@.len() && (#[trigger] input.completed_visible@[k])@
            == task.list_id@ {
        let k = choose|k: int|
            0 <= k < input.completed_visible@.len() && (#[trigger] input.completed_visible@[k])@
                == task.list_id@;
        assert(names[k] == task.list_id@);
    }
}

/// A chip carries the planned time on the planned day, and otherwise the
/// deadline's on the day it is due. Only a planned time has an end. A chip is a
/// deadline's where the task is due there and not planned there.
pub proof fn a_chip_carries_its_own_days_time(task: DayTask, day: Ymd)
    ensures
        ({
            let planned = task.scheduled_date is Some && task.scheduled_date->0@ == day;
            let due = task.deadline_date is Some && task.deadline_date->0@ == day;
            let timed = planned && task.scheduled_time is Some;
            &&& timed ==> time_at(task, day) == task.scheduled_time && end_time_at(task, day)
                == task.scheduled_end_time
            &&& !timed ==> end_time_at(task, day) is None
            &&& !timed && due ==> time_at(task, day) == task.deadline_time
            &&& !timed && !due ==> time_at(task, day) is None
            &&& due_alone(task, day) <==> due && !planned
        }),
{
}

/// A day shows each task that shows on it, once, and nothing else, in the order
/// of their bands.
pub proof fn a_day_shows_its_tasks_by_band(input: DayInput, day: Ymd, i: usize)
    requires
        input.tasks@.len() <= usize::MAX,
    ensures
        tasks_at(input, day).contains(i) <==> i < input.tasks@.len() && shows(
            input,
            input.tasks@[i as int],
            day,
        ),
        tasks_at(input, day).no_duplicates(),
        forall|a: int, b: int|
            0 <= a < b < tasks_at(input, day).len() ==> input.tasks@[#[trigger] tasks_at(
                input,
                day,
            )[a] as int].band <= input.tasks@[#[trigger] tasks_at(input, day)[b] as int].band,
        is_an_order(day_order(input)) ==> is_ordered(tasks_at(input, day), day_order(input)),
        rows_at(input, day).len() == tasks_at(input, day).len(),
        forall|k: int|
            0 <= k < rows_at(input, day).len() ==> (#[trigger] rows_at(input, day)[k]).task
                == tasks_at(input, day)[k],
{
    broadcast use vstd::seq_lib::group_to_multiset_ensures;

    let all = positions(input.tasks@.len() as int);
    let keep = on_day(input, day);
    let list = those(all, keep);
    lemma_kept(all, keep, i);
    if i < input.tasks@.len() {
        assert(all[i as int] == i);
    }
    if all.contains(i) {
        let k = choose|k: int| 0 <= k < all.len() && all[k] == i;
        assert(all[k] == k as usize);
    }
    ordering_keeps_every_item(list, day_order(input));
    assert(is_ascending(all));
    lemma_ascending(all, keep);
    assert(list.no_duplicates());
    list.lemma_multiset_has_no_duplicates();
    in_order(list, day_order(input)).lemma_multiset_has_no_duplicates_conv();
    assert(in_order(list, day_order(input)).to_multiset().contains(i) <==> list.to_multiset().contains(
        i,
    ));
    assert(in_order(list, day_order(input)).contains(i) <==> list.contains(i));
    let by_band = |a: usize, b: usize| input.tasks@[a as int].band <= input.tasks@[b as int].band;
    ordering_puts_in_turn(list, day_order(input), by_band);
    assert forall|a: int, b: int| 0 <= a < b < tasks_at(input, day).len() implies input.tasks@[
    #[trigger] tasks_at(input, day)[a] as int].band <= input.tasks@[#[trigger] tasks_at(
        input,
        day,
    )[b] as int].band by {
        assert(by_band(tasks_at(input, day)[a], tasks_at(input, day)[b]));
    }
    if is_an_order(day_order(input)) {
        ordering_orders(list, day_order(input));
    }
}

/// Days in calendar order, each once.
pub open spec fn are_dated_in_turn(days: Seq<Ymd>) -> bool {
    forall|a: int, b: int|
        0 <= a < b < days.len() ==> (#[trigger] days[a]).before(#[trigger] days[b])
}

proof fn lemma_with_day(list: Seq<Ymd>, day: Ymd)
    requires
        are_dated_in_turn(list),
    ensures
        are_dated_in_turn(with_day(list, day)),
        forall|d: Ymd| #[trigger] with_day(list, day).contains(d) <==> d == day || list.contains(d),
    decreases list.len(),
{
    let r = with_day(list, day);
    if list.len() == 0 {
        assert(r[0] == day);
    } else if list.last() == day {
        assert(list[list.len() - 1] == day);
    } else if list.last().before(day) {
        assert forall|a: int, b: int| 0 <= a < b < r.len() implies (#[trigger] r[a]).before(
            #[trigger] r[b],
        ) by {
            if b == list.len() && a < list.len() - 1 {
                assert(list[a].before(list[list.len() - 1]));
            }
        }
        assert forall|d: Ymd| #[trigger] r.contains(d) <==> d == day || list.contains(d) by {
            assert(r[list.len() as int] == day);
            if list.contains(d) {
                let k = choose|k: int| 0 <= k < list.len() && list[k] == d;
                assert(r[k] == d);
            }
            if r.contains(d) && d != day {
                let k = choose|k: int| 0 <= k < r.len() && r[k] == d;
                assert(list[k] == d);
            }
        }
    } else {
        let front = list.drop_last();
        let last = list.last();
        assert forall|a: int, b: int| 0 <= a < b < front.len() implies (#[trigger] front[a]).before(
            #[trigger] front[b],
        ) by {
            assert(front[a] == list[a] && front[b] == list[b]);
        }
        lemma_with_day(front, day);
        let before = with_day(front, day);
        assert(list[list.len() - 1] == last);
        assert forall|k: int| 0 <= k < before.len() implies (#[trigger] before[k]).before(
            last,
        ) by {
            assert(before.contains(before[k]));
            if before[k] != day {
                let m = choose|m: int| 0 <= m < front.len() && front[m] == before[k];
                assert(list[m].before(list[list.len() - 1]));
            }
        }
        assert forall|a: int, b: int| 0 <= a < b < r.len() implies (#[trigger] r[a]).before(
            #[trigger] r[b],
        ) by {
            assert(r[a] == before[a]);
            if b < before.len() {
                assert(r[b] == before[b]);
            }
        }
        assert forall|d: Ymd| #[trigger] r.contains(d) <==> d == day || list.contains(d) by {
            if r.contains(d) {
                let k = choose|k: int| 0 <= k < r.len() && r[k] == d;
                if k < before.len() {
                    assert(before[k] == d);
                    assert(before.contains(d));
                    if d != day {
                        let m = choose|m: int| 0 <= m < front.len() && front[m] == d;
                        assert(list[m] == d);
                    }
                }
            }
            if d == day || list.contains(d) {
                if d == last {
                    assert(r[before.len() as int] == last);
                } else {
                    if d != day {
                        let m = choose|m: int| 0 <= m < list.len() && list[m] == d;
                        assert(front[m] == d);
                    }
                    assert(before.contains(d));
                    let k = choose|k: int| 0 <= k < before.len() && before[k] == d;
                    assert(r[k] == d);
                }
            }
        }
    }
}

/// Every day asked about is answered once, in calendar order, and no other.
pub proof fn each_day_asked_is_answered_once(days: Seq<Date>, day: Ymd)
    ensures
        are_dated_in_turn(asked_days(days)),
        asked_days(days).contains(day) <==> exists|k: int|
            0 <= k < days.len() && (#[trigger] days[k])@ == day,
    decreases days.len(),
{
    if days.len() > 0 {
        let front = days.drop_last();
        each_day_asked_is_answered_once(front, day);
        lemma_with_day(asked_days(front), days.last()@);
        assert(days[days.len() - 1] == days.last());
        assert(asked_days(days).contains(day) <==> day == days.last()@ || asked_days(
            front,
        ).contains(day));
        if asked_days(front).contains(day) {
            let k = choose|k: int| 0 <= k < front.len() && (#[trigger] front[k])@ == day;
            assert(days[k]@ == day);
        }
        if exists|k: int| 0 <= k < days.len() && (#[trigger] days[k])@ == day {
            let k = choose|k: int| 0 <= k < days.len() && (#[trigger] days[k])@ == day;
            if k < front.len() {
                assert(front[k]@ == day);
            }
        }
    }
}

/// A deadline is for this week up to the week's last day, for next week up to
/// that one's, and for later after it. Each part keeps the order of the items.
pub proof fn a_deadline_falls_by_the_weeks_ends(
    deadlines: Seq<Option<Date>>,
    weeks: BacklogWeeks,
    i: usize,
)
    requires
        i < deadlines.len() <= usize::MAX,
        deadlines[i as int] is Some,
        deadlines[i as int]->0@.valid(),
        weeks.this_week_end@.valid(),
        weeks.next_week_end@.valid(),
    ensures
        ({
            let all = positions(deadlines.len() as int);
            let due = deadlines[i as int]->0@.number();
            let now = those(all, in_bucket(deadlines, weeks, 0));
            let next = those(all, in_bucket(deadlines, weeks, 1));
            let later = those(all, in_bucket(deadlines, weeks, 2));
            &&& now.contains(i) <==> due <= weeks.this_week_end@.number()
            &&& next.contains(i) <==> weeks.this_week_end@.number() < due
                <= weeks.next_week_end@.number()
            &&& later.contains(i) <==> due > weeks.this_week_end@.number() && due
                > weeks.next_week_end@.number()
            &&& is_ascending(now) && is_ascending(next) && is_ascending(later)
        }),
{
    let all = positions(deadlines.len() as int);
    let due = deadlines[i as int]->0@;
    day_numbers_follow_the_calendar(weeks.this_week_end@, due);
    day_numbers_follow_the_calendar(weeks.next_week_end@, due);
    assert(all[i as int] == i);
    assert(is_ascending(all));
    lemma_kept(all, in_bucket(deadlines, weeks, 0), i);
    lemma_kept(all, in_bucket(deadlines, weeks, 1), i);
    lemma_kept(all, in_bucket(deadlines, weeks, 2), i);
    lemma_ascending(all, in_bucket(deadlines, weeks, 0));
    lemma_ascending(all, in_bucket(deadlines, weeks, 1));
    lemma_ascending(all, in_bucket(deadlines, weeks, 2));
}

} // verus!
