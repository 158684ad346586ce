use project_harmonia::task::{
    cancel_action, check_request, current_groups, next_activation, placeholder_count,
    task_button_action, task_list_move, CancelAction, RequestError, TaskButtonAction,
    TaskComponents, TaskGroups, TaskRequestField, TaskState, MAX_ACTIVE_TASKS, MAX_FAMILY_SIZE,
};

#[test]
fn group_constants() {
    assert_eq!(TaskGroups::both_hands(), TaskGroups::left_hand().union(TaskGroups::right_hand()));
    assert!(!TaskGroups::both_hands().intersects(TaskGroups::legs()));
    assert!(TaskGroups::both_hands().contains(TaskGroups::left_hand()));
    assert_eq!(TaskGroups::all().bits(), 0b111);
    assert_eq!(TaskGroups::from_bits(0b1000), None);
    assert_eq!(TaskGroups::from_bits(0b0101).map(|g| g.bits()), Some(0b0101));
    assert_eq!(TaskGroups::from_bits_truncate(0b1111_0010).bits(), 0b0010);
    assert!(TaskGroups::default().is_empty());
}

#[test]
fn common_groups_of_active_tasks() {
    assert_eq!(current_groups(&[]), TaskGroups::empty());
    assert_eq!(current_groups(&[TaskGroups::legs()]), TaskGroups::legs());
    assert_eq!(
        current_groups(&[TaskGroups::both_hands(), TaskGroups::left_hand()]),
        TaskGroups::left_hand()
    );
}

#[test]
fn activation_picks_first_free_task() {
    let queued = [TaskGroups::left_hand(), TaskGroups::legs(), TaskGroups::right_hand()];
    assert_eq!(next_activation(&[], &queued), Some(0));
    assert_eq!(next_activation(&[TaskGroups::left_hand()], &queued), Some(1));
    assert_eq!(next_activation(&[TaskGroups::all()], &queued), None);
    assert_eq!(next_activation(&[TaskGroups::left_hand()], &[]), None);
}

#[test]
fn cancellation() {
    assert_eq!(cancel_action(true, false), CancelAction::Despawn);
    assert_eq!(cancel_action(false, true), CancelAction::MarkCancelled);
    assert_eq!(cancel_action(false, false), CancelAction::NotATask);
}

#[test]
fn requests_are_checked() {
    let mut components = TaskComponents::new();
    components.register(7);
    assert_eq!(check_request(false, Some(7), &components), Err(RequestError::NotAnActor));
    assert_eq!(check_request(true, None, &components), Err(RequestError::NotRegistered));
    assert_eq!(check_request(true, Some(8), &components), Err(RequestError::NotATask));
    assert_eq!(check_request(true, Some(7), &components), Ok(7));
}

#[test]
fn listed_task_type_is_the_first_registered() {
    let mut components = TaskComponents::new();
    components.register(7);
    components.register(3);
    components.register(9);
    assert_eq!(components.first_contained(&[1, 9, 3]), Some(3));
    assert_eq!(components.first_contained(&[9]), Some(9));
    assert_eq!(components.first_contained(&[1, 2]), None);
    assert_eq!(components.first_contained(&[]), None);
}

#[test]
fn task_list_follows_hover() {
    assert_eq!(task_list_move(Some(3), Some(2)), (Some(2), Some(3)));
    assert_eq!(task_list_move(Some(3), None), (None, Some(3)));
    assert_eq!(task_list_move(None, Some(2)), (None, None));
}

#[test]
fn task_buttons() {
    assert_eq!(task_button_action(TaskState::Queued), TaskButtonAction::SpawnQueued);
    assert_eq!(task_button_action(TaskState::Active), TaskButtonAction::MoveToActive);
    assert_eq!(task_button_action(TaskState::Cancelled), TaskButtonAction::Keep);
}

#[test]
fn placeholders() {
    assert_eq!(placeholder_count(1, MAX_ACTIVE_TASKS), 2);
    assert_eq!(placeholder_count(4, MAX_FAMILY_SIZE), 0);
    assert_eq!(placeholder_count(6, MAX_FAMILY_SIZE), 0);
}

#[test]
fn task_request_fields() {
    assert_eq!(TaskRequestField::Entity.name(), "entity");
    assert_eq!(TaskRequestField::Task.name(), "task");
    assert_eq!(TaskRequestField::Entity.index(), 0);
    assert_eq!(TaskRequestField::Task.index(), 1);
    assert_eq!(TaskRequestField::count(), 2);
}
