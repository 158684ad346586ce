//! State machines of the UI widgets: clicks, toggle and tab buttons, text
//! edit focus, and the closing of modal windows.
use vstd::prelude::*;

verus! {

/// The pointer's relation to a widget.
#[derive(Clone, Copy, PartialEq, Eq, Structural, Debug)]
pub enum Interaction {
    Pressed,
    Hovered,
    Idle,
}

/// One interaction change of a button: whether it is a click (pressed, then
/// released while still hovered), and the interaction to remember.
pub fn click_step(last: Interaction, current: Interaction) -> (r: (bool, Interaction))
    ensures
        r.0 == (current == Interaction::Hovered && last == Interaction::Pressed),
        r.1 == current,
{
    (current == Interaction::Hovered && last == Interaction::Pressed, current)
}

/// The background of a button.
#[derive(Clone, Copy, PartialEq, Eq, Structural, Debug)]
pub enum ButtonColor {
    Normal,
    Hovered,
    Pressed,
    HoveredPressed,
}

/// The background for an interaction and a toggled state.
pub fn button_color(interaction: Interaction, toggled: bool) -> (c: ButtonColor)
    ensures
        c == match interaction {
            Interaction::Pressed => ButtonColor::Pressed,
            Interaction::Hovered => if toggled {
                ButtonColor::HoveredPressed
            } else {
                ButtonColor::Hovered
            },
            Interaction::Idle => if toggled {
                ButtonColor::Pressed
            } else {
                ButtonColor::Normal
            },
        },
{
    match interaction {
        Interaction::Pressed => ButtonColor::Pressed,
        Interaction::Hovered => if toggled {
            ButtonColor::HoveredPressed
        } else {
            ButtonColor::Hovered
        },
        Interaction::Idle => if toggled {
            ButtonColor::Pressed
        } else {
            ButtonColor::Normal
        },
    }
}

/// The toggled state of a button after a click. An exclusive button that is
/// already toggled stays toggled.
pub fn toggle_on_click(toggled: bool, exclusive: bool) -> (r: bool)
    ensures
        r == if exclusive && toggled {
            true
        } else {
            !toggled
        },
{
    if exclusive && toggled {
        true
    } else {
        !toggled
    }
}

/// Untoggles every button of an exclusive group but the one at `index`.
pub fn untoggle_others(group: &mut Vec<bool>, index: usize)
    requires
        index < old(group)@.len(),
    ensures
        final(group)@.len() == old(group)@.len(),
        final(group)@[index as int] == old(group)@[index as int],
        forall|i: int| 0 <= i < final(group)@.len() && i != index ==> !final(group)@[i],
{
    let n = group.len();
    let mut i: usize = 0;
    while i < n
        invariant
            n == group@.len(),
            n == old(group)@.len(),
            index < n,
            i <= n,
            group@[index as int] == old(group)@[index as int],
            forall|j: int| 0 <= j < i && j != index ==> !group@[j],
        decreases n - i,
    {
        if i != index && group[i] {
            group.set(i, false);
        }
        i = i + 1;
    }
}

/// At most one button of `group` is toggled.
pub open spec fn at_most_one_toggled(group: Seq<bool>) -> bool {
    forall|i: int, j: int| 0 <= i < j < group.len() ==> !(group[i] && group[j])
}

/// The first `n` entries of `toggled` all are `t`.
pub open spec fn all_toggled_at(toggled: Seq<usize>, n: int, t: usize) -> bool {
    forall|k: int| 0 <= k < n ==> #[trigger] toggled[k] == t
}

/// Applies the exclusive rule to a group whose buttons at `toggled` were just
/// toggled on, in that order: each untoggles all the others. The last toggled
/// button keeps its state, unless an earlier, different button of the list
/// untoggled it, and every other button ends untoggled; so at most one button
/// stays toggled. A single click (`toggled` of length one) keeps the clicked
/// button and untoggles its siblings.
pub fn update_exclusive_group(group: &mut Vec<bool>, toggled: &[usize])
    requires
        forall|k: int| 0 <= k < toggled@.len() ==> toggled@[k] < old(group)@.len(),
    ensures
        final(group)@.len() == old(group)@.len(),
        toggled@.len() == 0 ==> final(group)@ == old(group)@,
        toggled@.len() > 0 ==> forall|i: int|
            0 <= i < final(group)@.len() ==> #[trigger] final(group)@[i] == (i == toggled@.last()
                && old(group)@[i] && all_toggled_at(toggled@, toggled@.len() as int, toggled@.last())),
        at_most_one_toggled(old(group)@) || toggled@.len() > 0 ==> at_most_one_toggled(final(group)@),
{
    let mut k: usize = 0;
    while k < toggled.len()
        invariant
            k <= toggled@.len(),
            group@.len() == old(group)@.len(),
            forall|m: int| 0 <= m < toggled@.len() ==> toggled@[m] < old(group)@.len(),
            k == 0 ==> group@ == old(group)@,
            k > 0 ==> forall|i: int|
                0 <= i < group@.len() ==> #[trigger] group@[i] == (i == toggled@[k - 1]
                    && old(group)@[i] && all_toggled_at(toggled@, k as int, toggled@[k - 1])),
            k > 0 ==> at_most_one_toggled(group@),
        decreases toggled@.len() - k,
    {
        let t = toggled[k];
        let ghost before = group@;
        untoggle_others(group, t);
        proof {
            if k > 0 {
                let prev = toggled@[k - 1];
                assert(all_toggled_at(toggled@, k + 1, t) == (t == prev && all_toggled_at(
                    toggled@,
                    k as int,
                    prev,
                ))) by {
                    if all_toggled_at(toggled@, k + 1, t) {
                        assert(toggled@[k - 1] == t);
                    }
                }
                assert(group@[t as int] == before[t as int]);
            } else {
                assert(all_toggled_at(toggled@, 1, t)) by {
                    assert(toggled@[0] == t);
                }
            }
        }
        k = k + 1;
    }
}

/// How a node is laid out: `Hidden` removes it from the layout.
#[derive(Clone, Copy, PartialEq, Eq, Structural, Debug)]
pub enum Display {
    Flex,
    Grid,
    Hidden,
}

/// The display of a tab's content when its button is toggled on or off, and
/// the display to restore later. Hiding remembers the current display;
/// showing restores the remembered one.
pub open spec fn tab_display_spec(toggled: bool, display: Display, previous: Option<Display>) -> (
    Display,
    Option<Display>,
) {
    if toggled {
        match previous {
            Some(p) => (p, previous),
            None => (display, previous),
        }
    } else {
        (Display::Hidden, Some(display))
    }
}

/// Computes [`tab_display_spec`].
pub fn tab_display(toggled: bool, display: Display, previous: Option<Display>) -> (r: (Display, Option<Display>))
    ensures
        r == tab_display_spec(toggled, display, previous),
{
    if toggled {
        match previous {
            Some(p) => (p, previous),
            None => (display, previous),
        }
    } else {
        (Display::Hidden, Some(display))
    }
}

/// Hiding a tab and showing it again restores its display.
pub proof fn lemma_tab_round_trip(display: Display, previous: Option<Display>)
    ensures
        ({
            let hidden = tab_display_spec(false, display, previous);
            tab_display_spec(true, hidden.0, hidden.1)
        }).0 == display,
{
}

/// The inactive flags of the text inputs after the one with entity `pressed`
/// was pressed: every other input becomes inactive.
pub fn focus_inputs(inputs: &[u64], pressed: u64) -> (inactive: Vec<bool>)
    ensures
        inactive@.len() == inputs@.len(),
        forall|i: int| 0 <= i < inputs@.len() ==> inactive@[i] == (inputs@[i] != pressed),
{
    let mut inactive: Vec<bool> = Vec::new();
    let mut i: usize = 0;
    while i < inputs.len()
        invariant
            i <= inputs@.len(),
            inactive@.len() == i,
            forall|j: int| 0 <= j < i ==> inactive@[j] == (inputs@[j] != pressed),
        decreases inputs@.len() - i,
    {
        inactive.push(inputs[i] != pressed);
        i = i + 1;
    }
    inactive
}

/// What a modal window does after it was drawn.
#[derive(Clone, Copy, PartialEq, Eq, Structural, Debug)]
pub struct ModalClose {
    /// The window closes.
    pub close: bool,
    /// The back action is consumed.
    pub consume_back: bool,
    /// The "modal closed" mark is removed.
    pub clear_closed_mark: bool,
}

/// A top-level modal window with an open state closes when the back action
/// was just pressed (consuming it) or when a widget marked it closed
/// (removing the mark). Other windows do nothing.
pub fn modal_close(is_top: bool, has_open_state: bool, back_pressed: bool, closed_mark: bool) -> (r: ModalClose)
    ensures
        r.consume_back == (is_top && has_open_state && back_pressed),
        r.clear_closed_mark == (is_top && has_open_state && closed_mark),
        r.close == (is_top && has_open_state && (back_pressed || closed_mark)),
{
    let active = is_top && has_open_state;
    ModalClose {
        close: active && (back_pressed || closed_mark),
        consume_back: active && back_pressed,
        clear_closed_mark: active && closed_mark,
    }
}

/// The tab of the actor info panel.
#[derive(Clone, Copy, PartialEq, Eq, Structural, Debug)]
pub enum InfoTab {
    Closed,
    Needs,
    Skills,
}

/// Clicking a tab opens it, or closes it if it is the open one.
pub fn next_info_tab(current: InfoTab, clicked: InfoTab) -> (r: InfoTab)
    ensures
        r == if current == clicked {
            InfoTab::Closed
        } else {
            clicked
        },
{
    if current == clicked {
        InfoTab::Closed
    } else {
        clicked
    }
}

/// Game actions (camera, building, tasks) listen to input only while no
/// widget wants the pointer or the keyboard and no modal window is open.
pub fn actions_enabled(pointer_wanted: bool, keyboard_wanted: bool, modal_open: bool) -> (b: bool)
    ensures
        b == !(pointer_wanted || keyboard_wanted || modal_open),
{
    !(pointer_wanted || keyboard_wanted || modal_open)
}

/// The back button: a click, or the back action pressed, counts as a click;
/// the back action is consumed only when it made the click.
/// Returns whether the button was clicked and whether the action is consumed.
pub fn back_click(clicked: bool, back_pressed: bool) -> (r: (bool, bool))
    ensures
        r.0 == (clicked || back_pressed),
        r.1 == (!clicked && back_pressed),
{
    (clicked || back_pressed, !clicked && back_pressed)
}

/// A dialog that names something (a family to save, a city to create)
/// enables its confirming button only once a name is typed.
pub fn name_entered(name: &str) -> (b: bool)
    ensures
        b == (name@.len() > 0),
{
    !name.is_empty()
}

} // verus!
