use cal_core::task_assignment::{
    clamp_assignees, is_mine_or_unassigned, self_assign_on_status_change, task_assignment_mode,
    AssignmentCapabilities, SelfAssignOutcome,
};
use cal_core::types::TaskAssignment;
use cal_core::{TaskStatus, TaskUser};

fn user(id: &str) -> TaskUser {
    TaskUser {
        id: id.to_string(),
        name: id.to_string(),
        email: None,
    }
}

#[test]
fn a_personal_list_has_no_identity_so_everything_is_mine() {
    assert!(is_mine_or_unassigned(&[], None));
    assert!(is_mine_or_unassigned(&[user("someone")], None));
}

#[test]
fn an_unassigned_task_in_a_shared_list_is_mine() {
    assert!(is_mine_or_unassigned(&[], Some(&user("me"))));
}

#[test]
fn a_task_assigned_to_me_is_mine_even_alongside_others() {
    let me = user("me");
    assert!(is_mine_or_unassigned(
        &[user("colleague"), me.clone()],
        Some(&me)
    ));
}

#[test]
fn a_colleagues_task_is_not_mine() {
    assert!(!is_mine_or_unassigned(
        &[user("colleague")],
        Some(&user("me"))
    ));
}

#[test]
fn ownership_is_decided_by_id_not_by_name_or_mail() {
    let me = TaskUser {
        id: "u1".into(),
        name: "Toni".into(),
        email: Some("a@example.org".into()),
    };
    let same_person_other_label = TaskUser {
        id: "u1".into(),
        name: "T. B.".into(),
        email: None,
    };
    assert!(is_mine_or_unassigned(&[same_person_other_label], Some(&me)));
}

fn ids(list: &[&str]) -> Vec<String> {
    list.iter().map(|id| id.to_string()).collect()
}

#[test]
fn the_wire_speaks_the_outcome_and_reads_a_full_capabilities_block() {
    assert_eq!(
        self_assign_on_status_change(TaskStatus::Open, &ids(&["a", "me", "b"]), Some("me"), true),
        SelfAssignOutcome::Keep {
            positions: vec![0, 2],
        }
    );
    assert_eq!(
        self_assign_on_status_change(TaskStatus::Completed, &[], Some("me"), true),
        SelfAssignOutcome::AssignMe
    );
    assert_eq!(
        self_assign_on_status_change(TaskStatus::Completed, &[], None, true),
        SelfAssignOutcome::Unchanged
    );
    assert_eq!(
        task_assignment_mode(Some(&AssignmentCapabilities {
            task_assignment: TaskAssignment::Multiple,
        })),
        TaskAssignment::Multiple
    );
    assert_eq!(clamp_assignees(TaskAssignment::Single, 2), vec![0]);
}

#[test]
fn a_task_a_colleague_holds_is_not_taken() {
    assert_eq!(
        self_assign_on_status_change(TaskStatus::InProgress, &ids(&["you"]), Some("me"), true),
        SelfAssignOutcome::Unchanged
    );
    assert_eq!(
        self_assign_on_status_change(TaskStatus::InProgress, &[], Some("me"), true),
        SelfAssignOutcome::AssignMe
    );
    assert_eq!(
        self_assign_on_status_change(TaskStatus::InProgress, &[], Some("me"), false),
        SelfAssignOutcome::Unchanged
    );
}

#[test]
fn reopening_removes_every_copy_of_me() {
    assert_eq!(
        self_assign_on_status_change(TaskStatus::Open, &ids(&["me", "a", "me"]), Some("me"), true),
        SelfAssignOutcome::Keep { positions: vec![1] }
    );
    assert_eq!(
        self_assign_on_status_change(TaskStatus::Cancelled, &ids(&["me"]), Some("me"), true),
        SelfAssignOutcome::Unchanged
    );
}

#[test]
fn what_cannot_assign_never_empties_what_it_cannot_show() {
    assert_eq!(task_assignment_mode(None), TaskAssignment::Unassignable);
    assert_eq!(clamp_assignees(TaskAssignment::Unassignable, 3), vec![0, 1, 2]);
    assert_eq!(clamp_assignees(TaskAssignment::Multiple, 2), vec![0, 1]);
    assert!(clamp_assignees(TaskAssignment::Single, 0).is_empty());
}
