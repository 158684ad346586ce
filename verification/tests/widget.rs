use project_harmonia::widget::{
    actions_enabled, back_click, name_entered, button_color, click_step, focus_inputs, modal_close, next_info_tab, tab_display,
    toggle_on_click, update_exclusive_group, untoggle_others, ButtonColor, Display, InfoTab,
    Interaction,
};

#[test]
fn clicks_need_press_then_hover() {
    assert_eq!(click_step(Interaction::Pressed, Interaction::Hovered), (true, Interaction::Hovered));
    assert_eq!(click_step(Interaction::Idle, Interaction::Hovered), (false, Interaction::Hovered));
    assert_eq!(click_step(Interaction::Pressed, Interaction::Idle), (false, Interaction::Idle));
}

#[test]
fn button_colors() {
    assert_eq!(button_color(Interaction::Pressed, false), ButtonColor::Pressed);
    assert_eq!(button_color(Interaction::Idle, true), ButtonColor::Pressed);
    assert_eq!(button_color(Interaction::Hovered, true), ButtonColor::HoveredPressed);
    assert_eq!(button_color(Interaction::Hovered, false), ButtonColor::Hovered);
    assert_eq!(button_color(Interaction::Idle, false), ButtonColor::Normal);
}

#[test]
fn toggling() {
    assert!(toggle_on_click(false, false));
    assert!(!toggle_on_click(true, false));
    assert!(toggle_on_click(false, true));
    assert!(toggle_on_click(true, true));
}

#[test]
fn exclusive_groups() {
    let mut group = vec![true, false, true, true];
    untoggle_others(&mut group, 2);
    assert_eq!(group, vec![false, false, true, false]);
    let mut group = vec![true, true, false];
    update_exclusive_group(&mut group, &[1]);
    assert_eq!(group, vec![false, true, false]);
    let mut group = vec![true, true, false];
    update_exclusive_group(&mut group, &[]);
    assert_eq!(group, vec![true, true, false]);
    let mut group = vec![false, true, true, true];
    update_exclusive_group(&mut group, &[3, 3]);
    assert_eq!(group, vec![false, false, false, true]);
    let mut group = vec![true, false, true];
    update_exclusive_group(&mut group, &[0, 2]);
    assert_eq!(group, vec![false, false, false]);
}

#[test]
fn tabs_remember_display() {
    let hidden = tab_display(false, Display::Grid, None);
    assert_eq!(hidden, (Display::Hidden, Some(Display::Grid)));
    assert_eq!(tab_display(true, hidden.0, hidden.1), (Display::Grid, Some(Display::Grid)));
    assert_eq!(tab_display(true, Display::Flex, None), (Display::Flex, None));
}

#[test]
fn focus_follows_press() {
    assert_eq!(focus_inputs(&[4, 5, 6], 5), vec![true, false, true]);
    assert_eq!(focus_inputs(&[4], 9), vec![true]);
}

#[test]
fn modal_closing() {
    let close = modal_close(true, true, true, false);
    assert!(close.close && close.consume_back && !close.clear_closed_mark);
    let close = modal_close(true, true, false, true);
    assert!(close.close && !close.consume_back && close.clear_closed_mark);
    let close = modal_close(false, true, true, true);
    assert!(!close.close && !close.consume_back && !close.clear_closed_mark);
    let close = modal_close(true, false, true, true);
    assert!(!close.close);
}

#[test]
fn info_tabs_toggle() {
    assert_eq!(next_info_tab(InfoTab::Closed, InfoTab::Needs), InfoTab::Needs);
    assert_eq!(next_info_tab(InfoTab::Needs, InfoTab::Needs), InfoTab::Closed);
    assert_eq!(next_info_tab(InfoTab::Needs, InfoTab::Skills), InfoTab::Skills);
}

#[test]
fn game_actions_wait_for_widgets() {
    assert!(actions_enabled(false, false, false));
    assert!(!actions_enabled(true, false, false));
    assert!(!actions_enabled(false, true, false));
    assert!(!actions_enabled(false, false, true));
}

#[test]
fn back_action_counts_as_click() {
    assert_eq!(back_click(false, false), (false, false));
    assert_eq!(back_click(true, false), (true, false));
    assert_eq!(back_click(false, true), (true, true));
    assert_eq!(back_click(true, true), (true, false));
}

#[test]
fn names_must_be_typed() {
    assert!(!name_entered(""));
    assert!(name_entered("Smith"));
}
