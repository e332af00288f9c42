use cal_core::{
    auto_date_on_start, derive_status_from_children, plan_ancestor_recompute, plan_status_cascade,
    CascadeOptions, CascadeTask, StatusWrite, TaskStatus,
};

fn task(id: &str, status: TaskStatus, parent: Option<&str>) -> CascadeTask {
    CascadeTask {
        id: id.into(),
        status,
        parent_id: parent.map(str::to_string),
        scheduled_date: None,
    }
}

fn write(id: &str, status: TaskStatus) -> StatusWrite {
    StatusWrite {
        task_id: id.into(),
        status,
        scheduled_date: None,
    }
}

#[test]
fn the_wire_accepts_a_full_task_and_defaults_the_options() {
    let tasks = [
        task("p", TaskStatus::InProgress, None),
        task("c", TaskStatus::Open, Some("p")),
    ];
    assert_eq!(
        plan_status_cascade(&tasks, "c", TaskStatus::Completed, &CascadeOptions::default()),
        vec![
            write("c", TaskStatus::Completed),
            write("p", TaskStatus::Completed),
        ]
    );
    assert_eq!(
        auto_date_on_start(TaskStatus::InProgress, None, Some("2026-05-21")).as_deref(),
        Some("2026-05-21")
    );
    assert!(plan_ancestor_recompute(&[], "p", &CascadeOptions::default()).is_empty());
}

#[test]
fn a_dated_task_is_not_pinned() {
    assert_eq!(
        auto_date_on_start(TaskStatus::InProgress, Some(""), Some("2026-05-21")),
        None
    );
    assert_eq!(
        auto_date_on_start(TaskStatus::Completed, None, Some("2026-05-21")),
        None
    );
    assert_eq!(auto_date_on_start(TaskStatus::InProgress, None, None), None);
}

#[test]
fn a_parents_status_follows_its_childrens() {
    for (children, status) in [
        (vec![], None),
        (vec![TaskStatus::Completed, TaskStatus::Cancelled], Some(TaskStatus::Completed)),
        (vec![TaskStatus::Open, TaskStatus::Cancelled], Some(TaskStatus::Open)),
        (vec![TaskStatus::Open, TaskStatus::Completed], Some(TaskStatus::InProgress)),
        (vec![TaskStatus::Cancelled, TaskStatus::Cancelled], Some(TaskStatus::Cancelled)),
        (vec![TaskStatus::InProgress, TaskStatus::Open], Some(TaskStatus::InProgress)),
    ] {
        assert_eq!(derive_status_from_children(&children), status, "{children:?}");
    }
}

#[test]
fn completing_a_parent_takes_its_open_descendants_along() {
    let tasks = [
        task("p", TaskStatus::Open, None),
        task("a", TaskStatus::Open, Some("p")),
        task("b", TaskStatus::Cancelled, Some("p")),
        task("c", TaskStatus::Open, Some("p")),
        task("d", TaskStatus::Open, Some("a")),
    ];
    assert_eq!(
        plan_status_cascade(&tasks, "p", TaskStatus::Completed, &CascadeOptions::default()),
        vec![
            write("p", TaskStatus::Completed),
            write("a", TaskStatus::Completed),
            write("c", TaskStatus::Completed),
            write("d", TaskStatus::Completed),
        ]
    );
}

#[test]
fn without_the_coupling_only_the_task_itself_is_written() {
    let tasks = [
        task("p", TaskStatus::Open, None),
        task("c", TaskStatus::Open, Some("p")),
    ];
    let alone = CascadeOptions {
        cascade_enabled: false,
        today: Some("2026-05-21".into()),
    };
    assert_eq!(
        plan_status_cascade(&tasks, "c", TaskStatus::InProgress, &alone),
        vec![StatusWrite {
            task_id: "c".into(),
            status: TaskStatus::InProgress,
            scheduled_date: Some("2026-05-21".into()),
        }]
    );
    assert!(plan_ancestor_recompute(&tasks, "p", &alone).is_empty());
}

#[test]
fn a_cycle_of_parents_ends_the_walk() {
    let tasks = [
        task("a", TaskStatus::Open, Some("b")),
        task("b", TaskStatus::Open, Some("a")),
    ];
    let writes =
        plan_status_cascade(&tasks, "a", TaskStatus::Completed, &CascadeOptions::default());
    assert_eq!(
        writes,
        vec![
            write("a", TaskStatus::Completed),
            write("b", TaskStatus::Completed),
        ]
    );
}

#[test]
fn a_task_the_list_does_not_hold_still_gets_its_write() {
    assert_eq!(
        plan_status_cascade(&[], "x", TaskStatus::Cancelled, &CascadeOptions::default()),
        vec![write("x", TaskStatus::Cancelled)]
    );
}

#[test]
fn a_recompute_settles_the_parents_above() {
    let tasks = [
        task("g", TaskStatus::Open, None),
        task("p", TaskStatus::Open, Some("g")),
        task("c", TaskStatus::Completed, Some("p")),
    ];
    assert_eq!(
        plan_ancestor_recompute(&tasks, "p", &CascadeOptions::default()),
        vec![
            write("p", TaskStatus::Completed),
            write("g", TaskStatus::Completed),
        ]
    );
}
