use project_harmonia::menu::{
    dialog_closes, main_menu_action, new_world_name, world_action, MainMenuAction,
    MainMenuButton, WorldAction, WorldBrowserButton, WorldButton, WorldDialog, exit_action, family_placement, ingame_action, parse_port, CityPlaceButton, ExitDialog,
    ExitDialogButton, ExitTarget, IngameAction, IngameMenuButton, PortError,
};

#[test]
fn ingame_menu_actions() {
    assert_eq!(ingame_action(IngameMenuButton::Resume), IngameAction::Close);
    assert_eq!(ingame_action(IngameMenuButton::Save), IngameAction::SaveAndClose);
    assert_eq!(ingame_action(IngameMenuButton::Settings), IngameAction::OpenSettings);
    assert_eq!(ingame_action(IngameMenuButton::World), IngameAction::OpenWorld);
    assert_eq!(
        ingame_action(IngameMenuButton::MainMenu),
        IngameAction::ConfirmExit(ExitDialog::MainMenu)
    );
    assert_eq!(
        ingame_action(IngameMenuButton::ExitGame),
        IngameAction::ConfirmExit(ExitDialog::Game)
    );
    let labels: Vec<&str> = IngameMenuButton::all().into_iter().map(|b| b.label()).collect();
    assert_eq!(labels, vec!["Resume", "Save", "Settings", "World", "Main menu", "Exit game"]);
}

#[test]
fn exit_dialogs() {
    assert_eq!(
        exit_action(ExitDialog::MainMenu, ExitDialogButton::SaveAndExit),
        (true, ExitTarget::MainMenu)
    );
    assert_eq!(exit_action(ExitDialog::Game, ExitDialogButton::Exit), (false, ExitTarget::Quit));
    assert_eq!(exit_action(ExitDialog::Game, ExitDialogButton::Cancel), (false, ExitTarget::Stay));
    assert_eq!(ExitDialog::Game.label(), "Are you sure you want to exit the game?");
    assert_eq!(ExitDialogButton::SaveAndExit.label(), "Save & exit");
}

#[test]
fn family_placements() {
    let p = family_placement(CityPlaceButton::PlaceAndPlay);
    assert!(p.select && !p.close_and_reset);
    let p = family_placement(CityPlaceButton::Place);
    assert!(!p.select && p.close_and_reset);
}

#[test]
fn ports() {
    assert_eq!(parse_port("4761"), Ok(4761));
    assert_eq!(parse_port("+80"), Ok(80));
    assert_eq!(parse_port("0"), Ok(0));
    assert_eq!(parse_port("65535"), Ok(65535));
    assert_eq!(parse_port("65536"), Err(PortError::Overflow));
    assert_eq!(parse_port(""), Err(PortError::Empty));
    assert_eq!(parse_port("+"), Err(PortError::InvalidDigit));
    assert_eq!(parse_port("-1"), Err(PortError::InvalidDigit));
    assert_eq!(parse_port("12a"), Err(PortError::InvalidDigit));
    assert_eq!(parse_port(" 12"), Err(PortError::InvalidDigit));
}

#[test]
fn ports_agree_with_std() {
    for text in ["1", "+1", "", "+", "-", "0065535", "65536", "99999a", "a99999", "4761 ", "१"] {
        let ours = parse_port(text);
        let std = text.parse::<u16>();
        assert_eq!(ours.is_ok(), std.is_ok(), "{text}");
        if let (Ok(a), Ok(b)) = (ours, std) {
            assert_eq!(a, b);
        }
    }
}

#[test]
fn main_menu() {
    let labels: Vec<&str> = MainMenuButton::all().into_iter().map(MainMenuButton::label).collect();
    assert_eq!(labels, vec!["Play", "Settings", "Exit"]);
    assert_eq!(main_menu_action(MainMenuButton::Play), MainMenuAction::BrowseWorlds);
    assert_eq!(main_menu_action(MainMenuButton::Settings), MainMenuAction::OpenSettings);
    assert_eq!(main_menu_action(MainMenuButton::Exit), MainMenuAction::Quit);
}

#[test]
fn world_browser_buttons() {
    assert_eq!(WorldBrowserButton::Create.dialog(), WorldDialog::Create);
    assert_eq!(WorldBrowserButton::Join.dialog(), WorldDialog::Join);
    assert_eq!(WorldBrowserButton::Join.label(), "Join");
    assert_eq!(world_action(WorldButton::Play), WorldAction::Load);
    assert_eq!(world_action(WorldButton::Host), WorldAction::Open(WorldDialog::Host));
    assert_eq!(world_action(WorldButton::Remove), WorldAction::Open(WorldDialog::Remove));
    assert_eq!(WorldButton::Remove.label(), "Remove");
    assert_eq!(WorldDialog::Host.confirm_label(), "Host");
    assert_eq!(new_world_name(), "New world");
    assert_eq!(CityPlaceButton::PlaceAndPlay.label(), "Place & play");
}

#[test]
fn world_dialogs_close() {
    for dialog in [WorldDialog::Create, WorldDialog::Join, WorldDialog::Host, WorldDialog::Remove] {
        assert!(dialog_closes(dialog, false, false));
    }
    assert!(dialog_closes(WorldDialog::Create, true, false));
    assert!(dialog_closes(WorldDialog::Host, true, false));
    assert!(!dialog_closes(WorldDialog::Host, true, true));
    assert!(!dialog_closes(WorldDialog::Remove, true, true));
    assert!(!dialog_closes(WorldDialog::Join, true, false));
}
