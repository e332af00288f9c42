use cal_core::civil::{Date, Instant};
use cal_core::task_grouping::{
    GroupBy, ListName, ListSections, ListUser, Row, BACKLOG_GROUP_ID, CANCELLED_GROUP_ID,
    DEFERRED_GROUP_ID, DONE_GROUP_ID, OVERDUE_GROUP_ID, TODAY_GROUP_ID,
};
use cal_core::{
    group_tasks, is_task_deferred, GroupKind, GroupableTask, GroupingInput, Section, TaskStatus,
    TaskUser,
};

fn day(d: u32) -> Date {
    Date::from_ymd_opt(2026, 5, d).unwrap()
}

fn task(id: &str, title: &str) -> GroupableTask {
    GroupableTask {
        id: id.into(),
        list_id: "L".into(),
        title: title.into(),
        status: TaskStatus::Open,
        band: 1,
        scheduled_date: None,
        resurface_date: None,
        parent_id: None,
        section_id: None,
        assignees: vec![],
        updated_at: Instant::from_timestamp(1_767_225_600, 0).unwrap(),
        completed_at: None,
    }
}

fn input(tasks: Vec<GroupableTask>) -> GroupingInput {
    GroupingInput {
        tasks,
        lists: vec![],
        sections: vec![],
        today: day(21),
        current_user_by_list: vec![],
        group_by: GroupBy::State,
        collapsed: vec![],
        language: "de".into(),
    }
}

fn ids(rows: &[Row]) -> Vec<&str> {
    rows.iter().map(|r| r.id.as_str()).collect()
}

#[test]
fn task_grouping_the_wire_accepts_a_full_task_and_defaults_the_rest() {
    let rows = group_tasks(&input(vec![task("t", "T")]));
    assert_eq!(ids(&rows), [BACKLOG_GROUP_ID, "grp:bl:list:L", "t"]);
}

#[test]
fn a_task_is_deferred_until_its_resurface_day() {
    assert!(is_task_deferred(Some(day(22)), day(21)));
    assert!(!is_task_deferred(Some(day(21)), day(21)));
    assert!(!is_task_deferred(None, day(21)));
}

#[test]
fn the_time_groups_come_in_order() {
    let mut late = task("late", "A");
    late.scheduled_date = Some(day(20));
    let mut now = task("now", "B");
    now.scheduled_date = Some(day(21));
    let mut soon = task("soon", "C");
    soon.scheduled_date = Some(day(23));
    let mut back = task("back", "D");
    back.resurface_date = Some(day(22));
    let mut done = task("done", "E");
    done.status = TaskStatus::Completed;
    let mut gone = task("gone", "F");
    gone.status = TaskStatus::Cancelled;
    let rows = group_tasks(&input(vec![gone, done, soon, back, task("open", "G"), now, late]));
    assert_eq!(
        ids(&rows),
        [
            OVERDUE_GROUP_ID,
            "late",
            TODAY_GROUP_ID,
            "now",
            BACKLOG_GROUP_ID,
            "grp:bl:list:L",
            "open",
            DEFERRED_GROUP_ID,
            "back",
            "soon",
            DONE_GROUP_ID,
            "done",
            CANCELLED_GROUP_ID,
            "gone",
        ]
    );
}

#[test]
fn a_parent_cycle_surfaces_instead_of_vanishing() {
    let mut a = task("a", "A");
    a.parent_id = Some("b".into());
    let mut b = task("b", "B");
    b.parent_id = Some("a".into());
    let mut c = task("c", "C");
    c.parent_id = Some("b".into());
    let rows = group_tasks(&input(vec![a, b, c]));
    let mut shown = ids(&rows);
    shown.sort_unstable();
    assert_eq!(
        shown,
        [BACKLOG_GROUP_ID, "a", "b", "c", "grp:bl:list:L"]
    );
    assert_eq!(rows[0].group.as_ref().unwrap().count, 3);
}

#[test]
fn siblings_come_by_band_and_then_by_title() {
    let mut first = task("first", "Zebra");
    first.band = 0;
    let rows = group_tasks(&input(vec![
        task("b", "Kapitel 10"),
        task("a", "Kapitel 2"),
        first,
    ]));
    assert_eq!(
        ids(&rows),
        [BACKLOG_GROUP_ID, "grp:bl:list:L", "first", "a", "b"]
    );
}

#[test]
fn the_done_group_splits_when_someone_else_owns_one() {
    let user = |id: &str| TaskUser {
        id: id.into(),
        name: id.into(),
        email: None,
    };
    let mut mine = task("mine", "A");
    mine.status = TaskStatus::Completed;
    mine.completed_at = Some(Instant::from_timestamp(1_779_000_000, 0).unwrap());
    let mut theirs = mine.clone();
    theirs.id = "theirs".into();
    theirs.assignees = vec![user("you")];
    theirs.completed_at = Some(Instant::from_timestamp(1_779_000_001, 0).unwrap());
    let mut question = input(vec![mine, theirs]);
    let rows = group_tasks(&question);
    assert_eq!(ids(&rows), [DONE_GROUP_ID, "theirs", "mine"]);
    assert_eq!(rows[0].group.as_ref().unwrap().mine, None);
    question.current_user_by_list = vec![ListUser {
        list_id: "L".into(),
        user: Some(user("me")),
    }];
    let rows = group_tasks(&question);
    let head = rows[0].group.as_ref().unwrap();
    assert_eq!((head.count, head.mine, head.others), (2, Some(1), Some(1)));
}

#[test]
fn sections_come_by_name_under_their_list() {
    let mut inner = task("inner", "A");
    inner.section_id = Some("s2".into());
    let mut other = task("other", "B");
    other.section_id = Some("s1".into());
    let mut question = input(vec![inner, other]);
    question.group_by = GroupBy::List;
    question.lists = vec![ListName {
        list_id: "L".into(),
        name: "Liste".into(),
    }];
    question.sections = vec![ListSections {
        list_id: "L".into(),
        sections: vec![
            Section {
                id: "s1".into(),
                name: "Zuletzt".into(),
            },
            Section {
                id: "s2".into(),
                name: "Anfang".into(),
            },
        ],
    }];
    let rows = group_tasks(&question);
    let shown = ids(&rows);
    assert_eq!(shown[0], "grp:list:L");
    assert_eq!((shown[2], shown[4]), ("inner", "other"));
    assert_eq!(rows[1].group.as_ref().unwrap().kind, GroupKind::Section);
    assert!(rows.iter().all(|r| !r.hidden));
    question.collapsed = vec!["grp:list:L".into()];
    let rows = group_tasks(&question);
    assert!(!rows[0].hidden);
    assert!(rows[1..].iter().all(|r| r.hidden));
}

#[test]
fn each_task_has_exactly_one_row() {
    let mut tasks = vec![
        task("a", "A"),
        task("b", "B"),
        task("c", "C"),
        task("d", "D"),
        task("e", "E"),
        task("f", "F"),
    ];
    tasks[0].parent_id = Some("b".into());
    tasks[1].parent_id = Some("a".into());
    tasks[2].parent_id = Some("b".into());
    tasks[3].parent_id = Some("gone".into());
    tasks[3].section_id = Some("s1".into());
    tasks[4].status = TaskStatus::Completed;
    tasks[5].scheduled_date = Some(day(20));
    for group_by in [GroupBy::State, GroupBy::List] {
        let mut question = input(tasks.clone());
        question.group_by = group_by;
        question.sections = vec![ListSections {
            list_id: "L".into(),
            sections: vec![Section {
                id: "s1".into(),
                name: "S".into(),
            }],
        }];
        let rows = group_tasks(&question);
        let mut shown: Vec<&str> = rows
            .iter()
            .filter(|r| r.group.is_none())
            .map(|r| r.id.as_str())
            .collect();
        shown.sort();
        assert_eq!(shown, ["a", "b", "c", "d", "e", "f"]);

        question.collapsed = vec!["b".into(), "grp:list:L".into(), BACKLOG_GROUP_ID.into()];
        let collapsed = group_tasks(&question);
        assert!(collapsed.iter().any(|r| r.hidden));
        let bare = |rows: &[Row]| -> Vec<Row> {
            rows.iter().cloned().map(|r| Row { hidden: false, ..r }).collect()
        };
        assert_eq!(bare(&collapsed), bare(&rows));
    }
}

#[test]
fn of_several_entries_for_a_list_the_last_one_counts() {
    let user = |id: &str| {
        Some(TaskUser {
            id: id.into(),
            name: id.into(),
            email: None,
        })
    };
    let mut done = task("a", "A");
    done.status = TaskStatus::Completed;
    done.assignees = vec![user("you").unwrap()];
    let mut open = task("b", "B");
    open.section_id = Some("s2".into());
    let mut other = task("c", "C");
    other.list_id = "M".into();
    let mut question = input(vec![done, open, other]);
    question.group_by = GroupBy::List;
    let named = |list_id: &str, name: &str| ListName {
        list_id: list_id.into(),
        name: name.into(),
    };
    question.lists = vec![named("L", "A"), named("M", "B"), named("L", "C")];
    let sections = |id: &str| ListSections {
        list_id: "L".into(),
        sections: vec![Section {
            id: id.into(),
            name: id.into(),
        }],
    };
    question.sections = vec![sections("s1"), sections("s2")];
    let of = |id: &str| ListUser {
        list_id: "L".into(),
        user: user(id),
    };
    question.current_user_by_list = vec![of("you"), of("me")];
    let rows = group_tasks(&question);
    assert_eq!(
        ids(&rows),
        ["grp:list:M", "c", "grp:list:L", "grp:sec:ls:L:s2", "b", DONE_GROUP_ID, "a"]
    );
    let head = rows[5].group.as_ref().unwrap();
    assert_eq!((head.mine, head.others), (Some(0), Some(1)));
}
