use cal_core::{
    carry_onto, future_carry_fields, occurrence_carry_fields, plan_carry, CarryField, CarryTarget,
    CarryableFields,
};

fn fields(start: &str, end: &str) -> CarryableFields {
    CarryableFields {
        title: "Wochenplanung".into(),
        start: start.into(),
        end: end.into(),
        all_day: false,
        location: None,
        description: None,
    }
}

fn base() -> CarryableFields {
    fields("2026-08-10T08:00:00Z", "2026-08-10T09:00:00Z")
}

fn member(calendar_id: &str, event_id: &str, writable: bool) -> CarryTarget {
    CarryTarget {
        calendar_id: calendar_id.into(),
        event_id: event_id.into(),
        title: format!("Kopie {event_id}"),
        writable,
    }
}

fn members() -> Vec<CarryTarget> {
    vec![
        member("work", "ev-a", true),
        member("private", "ev-b", true),
        member("colleague", "ev-c", false),
    ]
}

#[test]
fn it_names_what_changed_who_gets_it_and_who_cannot() {
    let plan = plan_carry(
        &members(),
        ("work", "ev-a"),
        &base(),
        &fields("2026-08-10T10:00:00Z", "2026-08-10T11:00:00Z"),
    );
    assert_eq!(plan.changed, vec![CarryField::Start, CarryField::End]);
    assert_eq!(
        plan.targets.iter().map(|t| &t.event_id).collect::<Vec<_>>(),
        vec!["ev-b"],
    );
    assert_eq!(
        plan.skipped.iter().map(|t| &t.event_id).collect::<Vec<_>>(),
        vec!["ev-c"],
    );
    assert!(plan.worth_carrying);
}

#[test]
fn the_edited_copy_is_left_out_of_its_own_carry() {
    let mut after = base();
    after.title = "Neu".into();
    let plan = plan_carry(&members(), ("work", "ev-a"), &base(), &after);
    assert!(plan.targets.iter().all(|t| t.event_id != "ev-a"));
    assert!(plan.skipped.iter().all(|t| t.event_id != "ev-a"));
}

#[test]
fn nothing_carried_is_not_worth_asking_about() {
    let plan = plan_carry(&members(), ("work", "ev-a"), &base(), &base());
    assert!(plan.changed.is_empty());
    assert!(!plan.worth_carrying);
}

#[test]
fn every_other_copy_read_only_is_not_worth_asking_about() {
    let read_only = vec![
        member("work", "ev-a", true),
        member("private", "ev-b", false),
        member("colleague", "ev-c", false),
    ];
    let mut after = base();
    after.title = "Neu".into();
    let plan = plan_carry(&read_only, ("work", "ev-a"), &base(), &after);
    assert!(plan.targets.is_empty());
    assert_eq!(plan.skipped.len(), 2);
    assert!(!plan.worth_carrying);
}

#[test]
fn a_reserialised_start_is_not_a_change() {
    let plan = plan_carry(
        &members(),
        ("work", "ev-a"),
        &base(),
        &fields("2026-08-10T08:00:00.000Z", "2026-08-10T09:00:00.000Z"),
    );
    assert!(plan.changed.is_empty());
}

#[test]
fn empty_and_absent_are_the_same_value() {
    let mut after = base();
    after.location = Some(String::new());
    let plan = plan_carry(&members(), ("work", "ev-a"), &base(), &after);
    assert!(plan.changed.is_empty());
}

#[test]
fn only_what_changed_travels() {
    let mut mine = base();
    mine.location = Some("Raum 3".into());
    let mut after = base();
    after.title = "Wochenplanung neu".into();
    after.location = Some("Raum 4".into());
    let carried = carry_onto(&mine, &after, &[CarryField::Title]);
    assert_eq!(carried.title, "Wochenplanung neu");
    assert_eq!(carried.location.as_deref(), Some("Raum 3"));
}

#[test]
fn an_occurrence_lands_on_the_copys_own_day() {
    let master = fields("2026-08-03T08:00:00.000Z", "2026-08-03T09:00:00.000Z");
    let mut after = base();
    after.title = "Wochenplanung kurz".into();
    let row = occurrence_carry_fields(
        &master,
        "2026-08-24T08:00:00.000Z",
        &after,
        &[CarryField::Title],
    )
    .expect("a readable occurrence");
    assert_eq!(row.start, "2026-08-24T08:00:00.000Z");
    assert_eq!(row.end, "2026-08-24T09:00:00.000Z");
    assert_eq!(row.title, "Wochenplanung kurz");
}

#[test]
fn a_moved_occurrence_lands_where_the_user_put_it() {
    let master = fields("2026-08-03T08:00:00.000Z", "2026-08-03T09:00:00.000Z");
    let after = fields("2026-08-24T10:00:00.000Z", "2026-08-24T11:00:00.000Z");
    let row = occurrence_carry_fields(
        &master,
        "2026-08-24T08:00:00.000Z",
        &after,
        &[CarryField::Start, CarryField::End],
    )
    .expect("a readable occurrence");
    assert_eq!(row.start, "2026-08-24T10:00:00.000Z");
    assert_eq!(row.end, "2026-08-24T11:00:00.000Z");
}


fn copy_master() -> CarryableFields {
    fields("2026-08-12T14:00:00Z", "2026-08-12T15:00:00Z")
}
const COPY_CUT: &str = "2026-08-12T14:00:00Z";

#[test]
fn a_title_only_edit_leaves_the_copys_instants_alone() {
    let mut after = base();
    after.title = "Neuer Name".into();
    let row = future_carry_fields(
        &copy_master(),
        COPY_CUT,
        &base(),
        &after,
        &[CarryField::Title],
    )
    .expect("a readable cut point");
    assert_eq!(row.start, "2026-08-12T14:00:00.000Z");
    assert_eq!(row.end, "2026-08-12T15:00:00.000Z");
    assert_eq!(row.title, "Neuer Name");
}

#[test]
fn the_shift_travels_not_the_instant() {
    let row = future_carry_fields(
        &copy_master(),
        COPY_CUT,
        &base(),
        &fields("2026-08-10T09:00:00Z", "2026-08-10T10:00:00Z"),
        &[CarryField::Start, CarryField::End],
    )
    .expect("a readable cut point");
    assert_eq!(row.start, "2026-08-12T15:00:00.000Z");
    assert_eq!(row.end, "2026-08-12T16:00:00.000Z");
}

#[test]
fn a_backward_move_travels_the_same_way() {
    let row = future_carry_fields(
        &copy_master(),
        COPY_CUT,
        &base(),
        &fields("2026-08-09T08:00:00Z", "2026-08-09T09:00:00Z"),
        &[CarryField::Start, CarryField::End],
    )
    .expect("a readable cut point");
    assert_eq!(row.start, "2026-08-11T14:00:00.000Z");
}

#[test]
fn a_new_duration_without_a_move() {
    let mut after = base();
    after.end = "2026-08-10T11:00:00Z".into();
    let row = future_carry_fields(
        &copy_master(),
        COPY_CUT,
        &base(),
        &after,
        &[CarryField::End],
    )
    .expect("a readable cut point");
    assert_eq!(row.start, "2026-08-12T14:00:00.000Z");
    assert_eq!(row.end, "2026-08-12T17:00:00.000Z");
}

fn all_day_copy() -> CarryableFields {
    CarryableFields {
        all_day: true,
        ..fields("2026-08-12T00:00:00Z", "2026-08-13T00:00:00Z")
    }
}

#[test]
fn an_all_day_copy_moves_in_whole_days() {
    let row = future_carry_fields(
        &all_day_copy(),
        "2026-08-12T00:00:00Z",
        &base(),
        &fields("2026-08-10T20:00:00Z", "2026-08-10T21:00:00Z"),
        &[CarryField::Start, CarryField::End],
    )
    .expect("a readable cut point");
    assert_eq!(row.start, "2026-08-13T00:00:00.000Z");
    assert_eq!(row.end, "2026-08-14T00:00:00.000Z");
}

#[test]
fn an_exact_half_day_tie_breaks_towards_the_future() {
    let back = future_carry_fields(
        &all_day_copy(),
        "2026-08-12T00:00:00Z",
        &base(),
        &fields("2026-08-09T20:00:00Z", "2026-08-09T21:00:00Z"),
        &[CarryField::Start, CarryField::End],
    )
    .expect("a readable cut point");
    assert_eq!(
        back.start, "2026-08-12T00:00:00.000Z",
        "exactly twelve hours back must not move the copy",
    );

    let further = future_carry_fields(
        &all_day_copy(),
        "2026-08-12T00:00:00Z",
        &base(),
        &fields("2026-08-08T20:00:00Z", "2026-08-08T21:00:00Z"),
        &[CarryField::Start, CarryField::End],
    )
    .expect("a readable cut point");
    assert_eq!(further.start, "2026-08-11T00:00:00.000Z");
}

#[test]
fn both_all_day_adopts_the_new_duration() {
    let mut before = base();
    before.all_day = true;
    let after = CarryableFields {
        all_day: true,
        ..fields("2026-08-10T00:00:00Z", "2026-08-13T00:00:00Z")
    };
    let row = future_carry_fields(
        &all_day_copy(),
        "2026-08-12T00:00:00Z",
        &before,
        &after,
        &[CarryField::Start, CarryField::End],
    )
    .expect("a readable cut point");
    assert_eq!(row.start, "2026-08-12T00:00:00.000Z");
    assert_eq!(row.end, "2026-08-15T00:00:00.000Z");
}

#[test]
fn an_unreadable_cut_point_carries_nothing() {
    assert!(future_carry_fields(
        &copy_master(),
        "irgendwann",
        &base(),
        &fields("2026-08-10T09:00:00Z", "2026-08-10T10:00:00Z"),
        &[CarryField::Start, CarryField::End],
    )
    .is_none());
    assert!(occurrence_carry_fields(
        &copy_master(),
        "irgendwann",
        &base(),
        &[CarryField::Title],
    )
    .is_none());
}

#[test]
fn carrying_onto_a_copy_twice_is_carrying_it_once() {
    let mine = fields("2026-08-12T14:00:00Z", "2026-08-12T15:00:00Z");
    let mut after = base();
    after.description = Some("Neu".into());
    let changed = [CarryField::Start, CarryField::Description];
    let once = carry_onto(&mine, &after, &changed);
    assert_eq!(once.start, "2026-08-10T08:00:00Z");
    assert_eq!(once.end, "2026-08-12T15:00:00Z");
    assert_eq!(carry_onto(&once, &after, &changed), once);
}

#[test]
fn every_member_but_the_anchor_is_a_target_or_skipped() {
    let mut after = base();
    after.all_day = true;
    let plan = plan_carry(&members(), ("private", "ev-b"), &base(), &after);
    assert_eq!(plan.changed, vec![CarryField::AllDay]);
    assert_eq!(plan.targets, vec![member("work", "ev-a", true)]);
    assert_eq!(plan.skipped, vec![member("colleague", "ev-c", false)]);
}
