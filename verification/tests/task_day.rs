use cal_core::civil::{Date, TimeOfDay};
use cal_core::task_day::DayRows;
use cal_core::task_grouping::ListUser;
use cal_core::{
    backlog_weeks, end_time_on_day, is_deadline_chip, split_deadlines_by_week, tasks_on_days,
    time_on_day, DayInput, DayTask, DayTaskRow, TaskStatus, TaskUser,
};

fn day(year: i32, month: u32, day: u32) -> Date {
    Date::from_ymd_opt(year, month, day).unwrap()
}

fn clock(hour: u32) -> TimeOfDay {
    TimeOfDay {
        seconds: hour * 3600,
        nanos: 0,
    }
}

fn task(id: &str, title: &str) -> DayTask {
    DayTask {
        id: id.into(),
        list_id: "L".into(),
        title: title.into(),
        status: TaskStatus::Open,
        band: 1,
        scheduled_date: None,
        scheduled_time: None,
        scheduled_end_time: None,
        deadline_date: None,
        deadline_time: None,
        parent_id: None,
        assignees: vec![],
        completed_day: None,
    }
}

fn on(tasks: Vec<DayTask>, days: Vec<Date>) -> DayInput {
    DayInput {
        tasks,
        days,
        completed_visible: vec![],
        current_user_by_list: vec![],
        language: "de".into(),
    }
}

fn positions(rows: &[DayRows]) -> Vec<Vec<usize>> {
    rows.iter()
        .map(|d| d.rows.iter().map(|r| r.task).collect())
        .collect()
}

#[test]
fn task_day_the_wire_accepts_a_full_task_and_defaults_the_rest() {
    let mut t = task("t", "T");
    t.scheduled_date = Some(day(2026, 5, 21));
    t.scheduled_time = Some(clock(9));
    let answer = tasks_on_days(&on(vec![t], vec![day(2026, 5, 21)]));
    assert_eq!(answer.len(), 1);
    assert_eq!(answer[0].day, day(2026, 5, 21));
    assert_eq!(
        answer[0].rows,
        vec![DayTaskRow {
            task: 0,
            time: Some(clock(9)),
            end_time: None,
            deadline_chip: false,
        }]
    );
}

#[test]
fn a_planned_task_shows_on_its_plan_day_alone() {
    let mut t = task("t", "T");
    t.scheduled_date = Some(day(2026, 5, 21));
    t.deadline_date = Some(day(2026, 5, 22));
    let days = vec![day(2026, 5, 22), day(2026, 5, 21)];
    let answer = tasks_on_days(&on(vec![t.clone()], days));
    let got: Vec<(Date, usize)> = answer.iter().map(|d| (d.day, d.rows.len())).collect();
    assert_eq!(got, vec![(day(2026, 5, 21), 1), (day(2026, 5, 22), 0)]);
    t.scheduled_date = None;
    assert!(is_deadline_chip(&t, day(2026, 5, 22)));
    let answer = tasks_on_days(&on(vec![t], vec![day(2026, 5, 22)]));
    assert!(answer[0].rows[0].deadline_chip);
}

#[test]
fn a_colleagues_task_is_hidden() {
    let mut t = task("t", "T");
    t.scheduled_date = Some(day(2026, 5, 21));
    let user = |id: &str| TaskUser {
        id: id.into(),
        name: id.into(),
        email: None,
    };
    t.assignees = vec![user("you")];
    let mut input = on(vec![t], vec![day(2026, 5, 21)]);
    assert_eq!(positions(&tasks_on_days(&input)), vec![vec![0]]);
    input.current_user_by_list = vec![ListUser {
        list_id: "L".into(),
        user: Some(user("me")),
    }];
    assert_eq!(positions(&tasks_on_days(&input)), vec![Vec::<usize>::new()]);
}

#[test]
fn a_completed_task_keeps_the_day_it_was_planned_for() {
    let mut planned = task("a", "A");
    planned.status = TaskStatus::Completed;
    planned.scheduled_date = Some(day(2026, 5, 20));
    planned.completed_day = Some(day(2026, 5, 21));
    let mut unplanned = planned.clone();
    unplanned.id = "b".into();
    unplanned.scheduled_date = None;
    let mut input = on(
        vec![planned, unplanned],
        vec![day(2026, 5, 20), day(2026, 5, 21)],
    );
    input.completed_visible = vec!["L".into()];
    assert_eq!(positions(&tasks_on_days(&input)), vec![vec![0], vec![1]]);
    input.completed_visible = vec![];
    assert_eq!(
        positions(&tasks_on_days(&input)),
        vec![Vec::<usize>::new(), Vec::new()]
    );
}

#[test]
fn the_planned_time_wins_over_the_deadlines() {
    let mut t = task("t", "T");
    t.scheduled_date = Some(day(2026, 5, 21));
    t.scheduled_time = Some(clock(9));
    t.scheduled_end_time = Some(clock(10));
    t.deadline_date = Some(day(2026, 5, 21));
    t.deadline_time = Some(clock(17));
    assert_eq!(time_on_day(&t, day(2026, 5, 21)), Some(clock(9)));
    assert_eq!(end_time_on_day(&t, day(2026, 5, 21)), Some(clock(10)));
    assert!(!is_deadline_chip(&t, day(2026, 5, 21)));
    assert_eq!(time_on_day(&t, day(2026, 5, 22)), None);
    t.scheduled_date = None;
    assert_eq!(time_on_day(&t, day(2026, 5, 21)), Some(clock(17)));
    assert_eq!(end_time_on_day(&t, day(2026, 5, 21)), None);
}

#[test]
fn a_week_starts_on_the_day_it_is_told_to() {
    let weeks = backlog_weeks(day(2026, 12, 30), 1);
    assert_eq!(weeks.this_week_start, day(2026, 12, 28));
    assert_eq!(weeks.this_week_end, day(2027, 1, 3));
    assert_eq!(weeks.next_week_start, day(2027, 1, 4));
    assert_eq!(weeks.next_week_end, day(2027, 1, 10));
    assert_eq!(
        backlog_weeks(day(2026, 12, 30), 0).this_week_start,
        day(2026, 12, 27)
    );
}

#[test]
fn an_overdue_deadline_stays_with_this_week() {
    let weeks = backlog_weeks(day(2026, 12, 30), 1);
    let split = split_deadlines_by_week(
        &[
            Some(day(2026, 1, 1)),
            Some(day(2027, 1, 3)),
            Some(day(2027, 1, 4)),
            Some(day(2027, 1, 11)),
            None,
        ],
        &weeks,
    );
    assert_eq!(split.this_week, vec![0, 1]);
    assert_eq!(split.next_week, vec![2]);
    assert_eq!(split.later, vec![3]);
}
