use project_harmonia::settings::{
    input_from_events, GamepadEvent, KeyEvent, MouseEvent,
    apply_mappings, bind, mapping_buttons, resolve_binding, Action, BindOutcome,
    BindingDialogButton, ControlsSettings, Input, KeyCode, Mapping, MouseButton, Settings,
    SettingsField, INPUTS_PER_ACTION,
};

fn inputs_of(controls: &ControlsSettings, action: Action) -> Option<Vec<Input>> {
    controls.find(action).map(|i| controls.entry(i).1.to_vec())
}

#[test]
fn default_bindings() {
    let controls = ControlsSettings::default();
    assert_eq!(controls.len(), 10);
    assert_eq!(
        inputs_of(&controls, Action::CameraForward),
        Some(vec![Input::Keyboard(KeyCode::W), Input::Keyboard(KeyCode::Up)])
    );
    assert_eq!(inputs_of(&controls, Action::ZoomCamera), Some(vec![Input::MouseWheelY]));
    assert_eq!(
        inputs_of(&controls, Action::Confirm),
        Some(vec![Input::Mouse(MouseButton::Left)])
    );
    assert_eq!(
        inputs_of(&controls, Action::Cancel),
        Some(vec![Input::Keyboard(KeyCode::Escape)])
    );
}

#[test]
fn default_settings_are_off() {
    let settings = Settings::default();
    assert!(!settings.video.perf_stats);
    assert!(!settings.developer.game_inspector);
    assert!(!settings.developer.debug_collisions);
    assert!(!settings.developer.debug_paths);
    assert!(!settings.developer.wireframe);
}

#[test]
fn settings_fields() {
    let mut settings = Settings::default();
    settings.set_field(SettingsField::Wireframe, true);
    assert!(settings.field(SettingsField::Wireframe));
    assert!(settings.developer.wireframe);
    assert!(!settings.field(SettingsField::DebugPaths));
    settings.set_field(SettingsField::PerfStats, true);
    assert!(settings.video.perf_stats);
    assert_eq!(SettingsField::DebugCollisions.path(), "developer.debug_collisions");
    assert_eq!(SettingsField::PerfStats.path(), "video.perf_stats");
}

#[test]
fn push_input_adds_entries() {
    let mut controls = ControlsSettings::empty();
    controls.push_input(Action::Delete, Input::Keyboard(KeyCode::Delete));
    controls.push_input(Action::Confirm, Input::Mouse(MouseButton::Left));
    controls.push_input(Action::Delete, Input::Keyboard(KeyCode::Other(4)));
    assert_eq!(controls.len(), 2);
    assert_eq!(
        inputs_of(&controls, Action::Delete),
        Some(vec![Input::Keyboard(KeyCode::Delete), Input::Keyboard(KeyCode::Other(4))])
    );
    controls.clear();
    assert_eq!(controls.len(), 0);
}

#[test]
fn buttons_per_action() {
    let controls = ControlsSettings::default();
    let buttons = mapping_buttons(&controls);
    assert_eq!(buttons.len(), 10 * INPUTS_PER_ACTION);
    assert_eq!(
        buttons[0],
        Mapping { action: Action::CameraForward, input: Some(Input::Keyboard(KeyCode::W)) }
    );
    assert_eq!(buttons[2], Mapping { action: Action::CameraForward, input: None });
}

#[test]
fn buttons_round_trip() {
    let mut controls = ControlsSettings::default();
    let buttons = mapping_buttons(&controls);
    apply_mappings(&mut controls, &buttons);
    let default = ControlsSettings::default();
    assert_eq!(controls.len(), default.len());
    for i in 0..default.len() {
        assert_eq!(controls.entry(i).0, default.entry(i).0);
        assert_eq!(controls.entry(i).1, default.entry(i).1);
    }
}

#[test]
fn binding_conflicts_and_replacement() {
    let controls = ControlsSettings::default();
    let mut buttons = mapping_buttons(&controls);
    // The third button of "camera forward" is free; bind a new key there.
    assert_eq!(bind(&mut buttons, 2, Input::Keyboard(KeyCode::Other(9))), BindOutcome::Bound);
    assert_eq!(buttons[2].input, Some(Input::Keyboard(KeyCode::Other(9))));
    // The "S" key is already used by "camera backward".
    assert_eq!(bind(&mut buttons, 5, Input::Keyboard(KeyCode::S)), BindOutcome::Conflict(3));
    resolve_binding(&mut buttons, 5, Some(3), BindingDialogButton::Replace);
    assert_eq!(buttons[3].input, None);
    assert_eq!(buttons[5].input, Some(Input::Keyboard(KeyCode::S)));
    resolve_binding(&mut buttons, 5, None, BindingDialogButton::Delete);
    assert_eq!(buttons[5].input, None);
    let before = buttons.clone();
    resolve_binding(&mut buttons, 0, None, BindingDialogButton::Cancel);
    assert_eq!(buttons, before);

    let mut controls = ControlsSettings::empty();
    apply_mappings(&mut controls, &buttons);
    assert_eq!(
        inputs_of(&controls, Action::CameraForward),
        Some(vec![
            Input::Keyboard(KeyCode::W),
            Input::Keyboard(KeyCode::Up),
            Input::Keyboard(KeyCode::Other(9))
        ])
    );
    assert_eq!(
        inputs_of(&controls, Action::CameraBackward),
        Some(vec![Input::Keyboard(KeyCode::Down)])
    );
}

#[test]
fn input_from_frame_events() {
    let keys = [
        KeyEvent { key: Some(KeyCode::A), released: false },
        KeyEvent { key: None, released: true },
        KeyEvent { key: Some(KeyCode::D), released: true },
    ];
    let buttons = [MouseEvent { button: MouseButton::Right, released: true }];
    let pad = Some(GamepadEvent::ButtonChanged { button: 3, fully_pressed: true });
    assert_eq!(input_from_events(&keys, &buttons, pad), Some(Input::Keyboard(KeyCode::D)));
    assert_eq!(input_from_events(&keys[..2], &buttons, pad), Some(Input::Mouse(MouseButton::Right)));
    assert_eq!(input_from_events(&[], &[], pad), Some(Input::GamepadButton(3)));
    let half = Some(GamepadEvent::ButtonChanged { button: 3, fully_pressed: false });
    assert_eq!(input_from_events(&[], &[], half), None);
    assert_eq!(input_from_events(&[], &[], Some(GamepadEvent::Other)), None);
    assert_eq!(input_from_events(&[], &[], None), None);
}
