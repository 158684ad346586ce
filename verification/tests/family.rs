use project_harmonia::family::{
    check_family, family_menu_action, place_dialog_resets, save_dialog_action, ActorNames,
    FamilyEditor, FamilyError, FamilyMenuAction, FamilyMenuButton, PlaceDialogButton,
    SaveDialogAction, SaveDialogButton,
};

fn actor(first: &str, last: &str) -> ActorNames {
    ActorNames { first_name: first.to_string(), last_name: last.to_string() }
}

#[test]
fn every_actor_needs_both_names() {
    assert_eq!(check_family(&[]), Ok(()));
    assert_eq!(check_family(&[actor("Ann", "Smith"), actor("Bob", "Smith")]), Ok(()));
    assert_eq!(
        check_family(&[actor("Ann", "Smith"), actor("", ""), actor("Cid", "")]),
        Err(FamilyError::MissingFirstName(1))
    );
    assert_eq!(
        check_family(&[actor("Ann", ""), actor("", "Smith")]),
        Err(FamilyError::MissingLastName(0))
    );
}

#[test]
fn family_menu_buttons() {
    let named = [actor("Ann", "Smith"), actor("Bob", "Jones")];
    let unnamed = [actor("Ann", "Smith"), actor("Bob", "")];
    assert_eq!(
        family_menu_action(FamilyMenuButton::Confirm, &named, Some(1)),
        FamilyMenuAction::OpenSaveDialog("Jones".to_string())
    );
    assert_eq!(
        family_menu_action(FamilyMenuButton::Confirm, &named, Some(0)),
        FamilyMenuAction::OpenSaveDialog("Smith".to_string())
    );
    assert_eq!(
        family_menu_action(FamilyMenuButton::Confirm, &unnamed, None),
        FamilyMenuAction::Refuse(FamilyError::MissingLastName(1))
    );
    assert_eq!(family_menu_action(FamilyMenuButton::Cancel, &unnamed, None), FamilyMenuAction::LeaveEditor);
    assert_eq!(FamilyMenuButton::Confirm.label(), "Confirm");
}

#[test]
fn save_and_place_dialogs() {
    assert_eq!(save_dialog_action(SaveDialogButton::Save, "Smith"), SaveDialogAction::SaveAndPlace);
    assert_eq!(save_dialog_action(SaveDialogButton::Save, ""), SaveDialogAction::Ignore);
    assert_eq!(save_dialog_action(SaveDialogButton::Cancel, "Smith"), SaveDialogAction::Close);
    assert!(place_dialog_resets(PlaceDialogButton::CreateNew));
    assert!(!place_dialog_resets(PlaceDialogButton::Cancel));
    assert_eq!(PlaceDialogButton::CreateNew.label(), "Create new");
    assert_eq!(SaveDialogButton::Save.label(), "Save");
}

#[test]
fn editor_selects_the_new_actor() {
    let mut editor = FamilyEditor::new();
    assert_eq!(editor.selected(), None);
    editor.add_actor('a');
    editor.add_actor('b');
    assert_eq!(editor.selected(), Some(1));
    editor.select(0);
    assert_eq!(editor.selected(), Some(0));
    editor.select(5);
    assert_eq!(editor.selected(), Some(0));
    editor.replace_selected('c');
    assert_eq!(editor.actors(), &vec!['c', 'b']);
    editor.reset();
    assert_eq!(editor.selected(), None);
    assert!(editor.actors().is_empty());
    editor.replace_selected('d');
    assert!(editor.actors().is_empty());
}
