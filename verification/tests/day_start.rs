use cal_core::civil::Date;
use cal_core::day_start::{
    actionable_descendants, actionable_descendants_of, answer_day_start, carried_over,
    days_until_deadline, deadline_arrived, deadline_countdown, deadline_pin_targets,
    has_actionable_descendants, moved_to_today, overdue, parse_day_key, plan, reminder_groups,
    should_fire_today, untimed_today, CarryOverDefault, DayStartAnswer, DayStartIdentity,
    DayStartListSettings, DayStartMoved, DayStartPlan, DayStartQuestion, DayStartReminderGroups,
    DayStartReminderSettings, DayStartTask,
};
use cal_core::text::units_before;
use cal_core::TaskStatus;

fn task(id: &str, parent: Option<&str>, status: TaskStatus) -> DayStartTask {
    DayStartTask {
        id: id.into(),
        list_id: "list".into(),
        status,
        parent_id: parent.map(Into::into),
        scheduled_date: None,
        scheduled_time: None,
        deadline_date: None,
        deadline_reminder_days: None,
        assignees: Vec::new(),
    }
}

#[test]
fn the_walk_down_ends_on_a_cycle_through_its_root() {
    let tasks = vec![
        task("r", Some("s"), TaskStatus::Open),
        task("s", Some("r"), TaskStatus::Open),
    ];
    assert_eq!(actionable_descendants(&tasks, "r"), vec![1]);
}

#[test]
fn the_project_parent_check_ends_on_a_settled_cycle() {
    let mut tasks = vec![
        task("p", None, TaskStatus::Open),
        task("x", Some("p"), TaskStatus::Completed),
        task("y", Some("x"), TaskStatus::Completed),
        task("x", Some("y"), TaskStatus::Completed),
    ];
    tasks[0].deadline_date = Some("2026-05-10".into());
    assert!(!has_actionable_descendants(&tasks, "p"));
    assert_eq!(overdue(&tasks, "2026-05-20", &[]), vec![0]);
}

#[test]
fn the_climb_ends_on_a_cycle_above_a_slipped_task() {
    let mut tasks = vec![
        task("c", Some("a"), TaskStatus::Open),
        task("a", Some("b"), TaskStatus::Open),
        task("b", Some("a"), TaskStatus::Open),
    ];
    tasks[0].scheduled_date = Some("2026-05-10".into());
    assert_eq!(
        carried_over(&tasks, "2026-05-20", &[], &["list".to_string()]),
        vec![0]
    );
}

#[test]
fn a_task_that_is_its_own_slipped_parent_hides_itself() {
    let mut tasks = vec![task("c", Some("c"), TaskStatus::Open)];
    tasks[0].scheduled_date = Some("2026-05-10".into());
    assert!(carried_over(&tasks, "2026-05-20", &[], &["list".to_string()]).is_empty());
}

#[test]
fn a_day_is_four_two_two_digits_and_a_real_day() {
    assert_eq!(
        parse_day_key("0100-01-01"),
        Date::from_ymd_opt(100, 1, 1)
    );
    assert_eq!(
        parse_day_key("9999-12-31"),
        Date::from_ymd_opt(9999, 12, 31)
    );
    assert_eq!(parse_day_key("0099-12-31"), None);
    assert_eq!(parse_day_key("10000-01-01"), None);
    assert_eq!(parse_day_key("2026-05-2 "), None);
    assert_eq!(parse_day_key("2026/05/20"), None);
    assert_eq!(parse_day_key("２０２６-05-20"), None);
}

#[test]
fn text_order_is_javascripts() {
    assert!("\u{FF61}" < "\u{1F600}");
    assert!(!units_before("\u{FF61}", "\u{1F600}"));
    assert!(units_before("\u{1F600}", "\u{FF61}"));
    assert!(units_before("2026-05-19", "2026-05-20"));
    assert!(!units_before("2026-05-20", "2026-05-20"));
}

fn planned(id: &str, parent: Option<&str>, plan: Option<&str>) -> DayStartTask {
    DayStartTask {
        id: id.into(),
        list_id: "list".into(),
        status: TaskStatus::Open,
        parent_id: parent.map(Into::into),
        scheduled_date: plan.map(Into::into),
        scheduled_time: None,
        deadline_date: None,
        deadline_reminder_days: None,
        assignees: Vec::new(),
    }
}

fn quiet() -> DayStartReminderSettings {
    DayStartReminderSettings {
        remind_untimed_today: false,
        remind_deadline_arrived: false,
        remind_deadline_countdown: false,
        deadline_countdown_days: Some(3),
    }
}

#[test]
fn a_list_the_question_does_not_name_is_asked_and_brings_nothing() {
    let tasks = vec![
        planned("p", None, Some("2026-05-10")),
        planned("c", Some("p"), None),
    ];
    let p = plan(&tasks, "2026-05-20", &[], &[], &quiet());
    assert_eq!(p.ask, vec![0]);
    assert!(p.today.is_empty() && p.backlog.is_empty());
    assert!(p.today_targets.is_empty() && p.backlog_targets.is_empty());
    assert_eq!(p.surfaced, 1);
}

#[test]
fn a_later_row_with_a_collected_id_takes_its_place() {
    let tasks = vec![
        planned("x", None, Some("2026-05-10")),
        planned("x", None, Some("2026-05-11")),
    ];
    let lists = [DayStartListSettings {
        list_id: "list".into(),
        cascade: false,
        carry_over_default: CarryOverDefault::Today,
    }];
    let p = plan(&tasks, "2026-05-20", &[], &lists, &quiet());
    assert_eq!(p.today, vec![0, 1]);
    assert_eq!(p.today_targets, vec![1]);
}


#[test]
fn the_door_answers_the_rule_it_was_asked() {
    assert_eq!(
        answer_day_start(&DayStartQuestion::ShouldFire {
            trigger: "08:00".into(),
            last_fired: None,
            today: "2026-05-20".into(),
            now_hour: 9,
            now_minute: 30,
        }),
        DayStartAnswer::YesNo(true)
    );
    assert_eq!(
        answer_day_start(&DayStartQuestion::MovedToToday {
            today: "2026-05-20".into(),
            scheduled_date: Some("2026-05-25".into()),
        }),
        DayStartAnswer::Moved(DayStartMoved {
            deadline_date: "2026-05-20".into(),
            scheduled_date: None,
        })
    );
}

#[test]
fn the_door_answers_the_plan() {
    let nothing = DayStartReminderGroups {
        untimed: vec![],
        due_today: vec![],
        countdown: vec![],
    };
    assert_eq!(
        answer_day_start(&DayStartQuestion::Plan {
            tasks: vec![],
            today: "2026-05-20".into(),
            identities: vec![],
            lists: vec![],
            settings: DayStartReminderSettings {
                remind_untimed_today: true,
                remind_deadline_arrived: true,
                remind_deadline_countdown: true,
                deadline_countdown_days: Some(3),
            },
        }),
        DayStartAnswer::Plan(DayStartPlan {
            overdue: vec![],
            ask: vec![],
            today: vec![],
            backlog: vec![],
            today_targets: vec![],
            backlog_targets: vec![],
            reminders: nothing,
            surfaced: 0,
        })
    );
}

fn due(id: &str, deadline: &str) -> DayStartTask {
    let mut row = task(id, None, TaskStatus::Open);
    row.deadline_date = Some(deadline.into());
    row
}

#[test]
fn the_batch_walk_answers_what_each_single_walk_answers() {
    let tasks = vec![
        task("r", None, TaskStatus::Open),
        task("a", Some("r"), TaskStatus::Open),
        task("b", Some("r"), TaskStatus::Completed),
        task("c", Some("b"), TaskStatus::Open),
        task("d", Some("a"), TaskStatus::Open),
    ];
    let mut roots: Vec<String> = tasks.iter().map(|t| t.id.clone()).collect();
    roots.push("nobody".to_string());
    let singles: Vec<Vec<usize>> = roots
        .iter()
        .map(|root| actionable_descendants(&tasks, root))
        .collect();
    assert_eq!(actionable_descendants_of(&tasks, &roots, &[]), singles);
    assert_eq!(singles[0], vec![1, 3, 4]);
    assert_eq!(singles[5], Vec::<usize>::new());
    assert!(actionable_descendants_of(&[], &[], &[]).is_empty());
}

#[test]
fn a_project_parent_waits_for_its_subtasks() {
    let mut tasks = vec![
        due("p", "2026-05-10"),
        task("c", Some("p"), TaskStatus::Open),
    ];
    assert!(has_actionable_descendants(&tasks, "p"));
    assert!(overdue(&tasks, "2026-05-20", &[]).is_empty());
    tasks[1].status = TaskStatus::Completed;
    assert_eq!(overdue(&tasks, "2026-05-20", &[]), vec![0]);
}

#[test]
fn ownership_keeps_mine_and_unassigned() {
    let mut tasks = vec![
        due("mine", "2026-05-10"),
        due("nobodys", "2026-05-10"),
        due("theirs", "2026-05-10"),
    ];
    tasks[0].assignees = vec!["me".into(), "you".into()];
    tasks[2].assignees = vec!["you".into()];
    let identities = [DayStartIdentity {
        list_id: "list".into(),
        me: Some("me".into()),
    }];
    assert_eq!(overdue(&tasks, "2026-05-20", &identities), vec![0, 1]);
    assert_eq!(overdue(&tasks, "2026-05-20", &[]), vec![0, 1, 2]);
}

#[test]
fn overdue_takes_priority_over_a_slipped_plan() {
    let mut tasks = vec![due("late", "2026-05-10"), task("slipped", None, TaskStatus::Open)];
    tasks[0].scheduled_date = Some("2026-05-09".into());
    tasks[1].scheduled_date = Some("2026-05-19".into());
    assert_eq!(carried_over(&tasks, "2026-05-20", &[], &[]), vec![1]);
}

#[test]
fn a_coupled_list_shows_the_top_of_what_slipped() {
    let mut tasks = vec![
        task("p", None, TaskStatus::Open),
        task("c", Some("p"), TaskStatus::Open),
    ];
    tasks[0].scheduled_date = Some("2026-05-10".into());
    tasks[1].scheduled_date = Some("2026-05-11".into());
    let coupled = ["list".to_string()];
    assert_eq!(carried_over(&tasks, "2026-05-20", &[], &coupled), vec![0]);
    assert_eq!(carried_over(&tasks, "2026-05-20", &[], &[]), vec![0, 1]);
}

#[test]
fn moving_to_today_lifts_only_a_lapsed_plan() {
    assert_eq!(
        moved_to_today("2026-05-20", Some("2026-05-19")),
        DayStartMoved {
            deadline_date: "2026-05-20".into(),
            scheduled_date: Some("2026-05-20".into()),
        }
    );
    assert_eq!(
        moved_to_today("2026-05-20", None).scheduled_date,
        None
    );
}

#[test]
fn a_deadline_today_is_pinned_unless_planned_today() {
    let mut tasks = vec![due("a", "2026-05-20"), due("b", "2026-05-20"), due("c", "2026-05-21")];
    tasks[1].scheduled_date = Some("2026-05-20".into());
    assert_eq!(deadline_pin_targets(&tasks, "2026-05-20", &[]), vec![0]);
    assert_eq!(deadline_arrived(&tasks, "2026-05-20", &[]), vec![0, 1]);
}

#[test]
fn days_are_counted_on_the_calendar() {
    assert_eq!(days_until_deadline(Some("2026-05-23"), "2026-05-20"), Some(3));
    assert_eq!(days_until_deadline(Some("2026-05-19"), "2026-05-20"), Some(-1));
    assert_eq!(days_until_deadline(Some("2028-03-01"), "2028-02-28"), Some(2));
    assert_eq!(days_until_deadline(Some("2026-13-01"), "2026-05-20"), None);
    assert_eq!(days_until_deadline(Some("2026-5-1"), "2026-05-20"), None);
    assert_eq!(days_until_deadline(None, "2026-05-20"), None);
}

#[test]
fn an_empty_time_counts_as_timed() {
    let mut tasks = vec![
        task("a", None, TaskStatus::Open),
        task("b", None, TaskStatus::Open),
    ];
    tasks[0].scheduled_date = Some("2026-05-20".into());
    tasks[1].scheduled_date = Some("2026-05-20".into());
    tasks[1].scheduled_time = Some("".into());
    assert_eq!(untimed_today(&tasks, "2026-05-20", &[]), vec![0]);
}

#[test]
fn the_countdown_window_is_the_tasks_own_or_the_settings() {
    let mut tasks = vec![
        due("near", "2026-05-23"),
        due("far", "2026-05-28"),
        due("own", "2026-05-30"),
        due("today", "2026-05-20"),
    ];
    tasks[2].deadline_reminder_days = Some(10);
    assert_eq!(
        deadline_countdown(&tasks, "2026-05-20", &[], Some(3)),
        vec![0, 2]
    );
    assert_eq!(deadline_countdown(&tasks, "2026-05-20", &[], None), vec![2]);
    assert_eq!(
        deadline_countdown(&tasks, "2026-05-20", &[], Some(u64::MAX)),
        vec![0, 1, 2]
    );
}

#[test]
fn due_today_and_planned_today_counts_once() {
    let mut tasks = vec![due("a", "2026-05-20")];
    tasks[0].scheduled_date = Some("2026-05-20".into());
    let mut settings = DayStartReminderSettings {
        remind_untimed_today: true,
        remind_deadline_arrived: true,
        remind_deadline_countdown: true,
        deadline_countdown_days: Some(3),
    };
    let groups = reminder_groups(&tasks, "2026-05-20", &[], &settings);
    assert_eq!((groups.untimed.len(), groups.due_today, groups.countdown.len()), (0, vec![0], 0));
    settings.remind_deadline_arrived = false;
    let groups = reminder_groups(&tasks, "2026-05-20", &[], &settings);
    assert_eq!(groups.untimed, vec![0]);
    assert!(groups.due_today.is_empty());
}

#[test]
fn the_gate_opens_once_a_day() {
    assert!(should_fire_today("app-start", None, "2026-05-20", 9, 0));
    assert!(!should_fire_today("app-start", Some("2026-05-19"), "2026-05-20", 9, 0));
    assert!(should_fire_today("08:00", Some("2026-05-19"), "2026-05-20", 8, 0));
    assert!(!should_fire_today("08:00", Some("2026-05-20"), "2026-05-20", 9, 0));
    assert!(!should_fire_today("08:30", None, "2026-05-20", 8, 29));
    assert!(should_fire_today("garbage", None, "2026-05-20", 0, 0));
}

#[test]
fn a_coupled_root_brings_its_actionable_descendants() {
    let mut tasks = vec![
        planned("p", None, Some("2026-05-10")),
        planned("c", Some("p"), None),
        planned("d", Some("p"), None),
    ];
    tasks[2].status = TaskStatus::Completed;
    let lists = [DayStartListSettings {
        list_id: "list".into(),
        cascade: true,
        carry_over_default: CarryOverDefault::Backlog,
    }];
    let p = plan(&tasks, "2026-05-20", &[], &lists, &quiet());
    assert_eq!(p.backlog, vec![0]);
    assert_eq!(p.backlog_targets, vec![0, 1]);
    assert_eq!(p.surfaced, 0);
}
