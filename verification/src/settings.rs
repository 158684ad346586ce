//! Game settings, the default control bindings, and the binding editor of the
//! settings menu.
use vstd::prelude::*;

verus! {

/// A player action that inputs are bound to.
#[derive(Clone, Copy, PartialEq, Eq, Structural, Debug)]
pub enum Action {
    CameraForward,
    CameraBackward,
    CameraLeft,
    CameraRight,
    RotateCamera,
    ZoomCamera,
    RotateObject,
    Confirm,
    Delete,
    Cancel,
}

/// A keyboard key.
#[derive(Clone, Copy, PartialEq, Eq, Structural, Debug)]
pub enum KeyCode {
    W,
    A,
    S,
    D,
    Up,
    Down,
    Left,
    Right,
    Delete,
    Escape,
    /// Any other key, by its scan code.
    Other(u32),
}

/// A mouse button.
#[derive(Clone, Copy, PartialEq, Eq, Structural, Debug)]
pub enum MouseButton {
    Left,
    Right,
    Middle,
    Other(u16),
}

/// An input that can be bound to an action.
#[derive(Clone, Copy, PartialEq, Eq, Structural, Debug)]
pub enum Input {
    Keyboard(KeyCode),
    Mouse(MouseButton),
    GamepadButton(u32),
    /// The vertical axis of the mouse wheel.
    MouseWheelY,
    /// Any other single axis, by its code.
    OtherAxis(u32),
}

/// The inputs bound to one action, in order.
pub struct ActionInputs {
    pub action: Action,
    pub inputs: Vec<Input>,
}

/// The index of the entry for `action` in a list of bindings.
pub open spec fn action_index(m: Seq<(Action, Seq<Input>)>, action: Action) -> Option<int>
    decreases m.len(),
{
    if m.len() == 0 {
        None
    } else {
        match action_index(m.drop_last(), action) {
            Some(i) => Some(i),
            None => if m.last().0 == action {
                Some(m.len() - 1)
            } else {
                None
            },
        }
    }
}

pub proof fn lemma_action_index(m: Seq<(Action, Seq<Input>)>, action: Action)
    ensures
        match action_index(m, action) {
            Some(i) => 0 <= i < m.len() && m[i].0 == action && forall|j: int|
                0 <= j < i ==> m[j].0 != action,
            None => forall|j: int| 0 <= j < m.len() ==> m[j].0 != action,
        },
    decreases m.len(),
{
    if m.len() > 0 {
        let rest = m.drop_last();
        lemma_action_index(rest, action);
        assert forall|j: int| 0 <= j < rest.len() implies rest[j] == m[j] by {}
    }
}

/// No action has two entries.
pub open spec fn actions_distinct(m: Seq<(Action, Seq<Input>)>) -> bool {
    forall|i: int, j: int| 0 <= i < j < m.len() ==> m[i].0 != m[j].0
}

/// `m` with `input` appended to the inputs of `action`, whose entry is
/// added at the end if it has none.
pub open spec fn add_input(m: Seq<(Action, Seq<Input>)>, action: Action, input: Input) -> Seq<(Action, Seq<Input>)> {
    match action_index(m, action) {
        Some(i) => m.update(i, (action, m[i].1.push(input))),
        None => m.push((action, seq![input])),
    }
}

/// The default bindings.
pub open spec fn default_mappings() -> Seq<(Action, Seq<Input>)> {
    seq![
        (Action::CameraForward, seq![Input::Keyboard(KeyCode::W), Input::Keyboard(KeyCode::Up)]),
        (Action::CameraBackward, seq![Input::Keyboard(KeyCode::S), Input::Keyboard(KeyCode::Down)]),
        (Action::CameraLeft, seq![Input::Keyboard(KeyCode::A), Input::Keyboard(KeyCode::Left)]),
        (Action::CameraRight, seq![Input::Keyboard(KeyCode::D), Input::Keyboard(KeyCode::Right)]),
        (Action::RotateCamera, seq![Input::Mouse(MouseButton::Right)]),
        (Action::ZoomCamera, seq![Input::MouseWheelY]),
        (Action::RotateObject, seq![Input::Mouse(MouseButton::Right)]),
        (Action::Confirm, seq![Input::Mouse(MouseButton::Left)]),
        (Action::Delete, seq![Input::Keyboard(KeyCode::Delete)]),
        (Action::Cancel, seq![Input::Keyboard(KeyCode::Escape)]),
    ]
}

/// The inputs bound to each action, one entry per action.
pub struct ControlsSettings {
    mappings: Vec<ActionInputs>,
}

impl ControlsSettings {
    pub closed spec fn mapping_view(self) -> Seq<(Action, Seq<Input>)> {
        self.mappings@.map_values(|m: ActionInputs| (m.action, m.inputs@))
    }

    /// No bindings.
    pub fn empty() -> (c: Self)
        ensures
            c.mapping_view() == Seq::<(Action, Seq<Input>)>::empty(),
    {
        let c = ControlsSettings { mappings: Vec::new() };
        assert(c.mapping_view() =~= Seq::<(Action, Seq<Input>)>::empty());
        c
    }

    /// The number of actions with an entry.
    pub fn len(&self) -> (n: usize)
        ensures
            n == self.mapping_view().len(),
    {
        self.mappings.len()
    }

    /// The action of the entry at `index` and its inputs.
    pub fn entry(&self, index: usize) -> (r: (Action, &[Input]))
        requires
            index < self.mapping_view().len(),
        ensures
            r.0 == self.mapping_view()[index as int].0,
            r.1@ == self.mapping_view()[index as int].1,
    {
        let m = &self.mappings[index];
        (m.action, m.inputs.as_slice())
    }

    /// The index of the entry for `action`.
    pub fn find(&self, action: Action) -> (r: Option<usize>)
        ensures
            match r {
                Some(i) => action_index(self.mapping_view(), action) == Some(i as int),
                None => action_index(self.mapping_view(), action) is None,
            },
    {
        let ghost m = self.mapping_view();
        proof {
            lemma_action_index(m, action);
        }
        let mut i: usize = 0;
        while i < self.mappings.len()
            invariant
                m == self.mapping_view(),
                m.len() == self.mappings@.len(),
                i <= m.len(),
                forall|j: int| 0 <= j < i ==> m[j].0 != action,
                match action_index(m, action) {
                    Some(k) => 0 <= k < m.len() && m[k].0 == action && forall|j: int|
                        0 <= j < k ==> m[j].0 != action,
                    None => forall|j: int| 0 <= j < m.len() ==> m[j].0 != action,
                },
            decreases m.len() - i,
        {
            assert(m[i as int].0 == self.mappings@[i as int].action);
            if self.mappings[i].action == action {
                return Some(i);
            }
            i = i + 1;
        }
        None
    }

    /// Appends `input` to the inputs of `action`, adding its entry if needed.
    pub fn push_input(&mut self, action: Action, input: Input)
        ensures
            final(self).mapping_view() == add_input(old(self).mapping_view(), action, input),
    {
        let ghost m = self.mapping_view();
        match self.find(action) {
            Some(i) => {
                proof {
                    lemma_action_index(m, action);
                }
                self.mappings[i].inputs.push(input);
                assert(self.mapping_view() =~= m.update(i as int, (action, m[i as int].1.push(input))));
            },
            None => {
                let mut inputs: Vec<Input> = Vec::new();
                inputs.push(input);
                self.mappings.push(ActionInputs { action, inputs });
                assert(inputs@ =~= seq![input]);
                assert(self.mapping_view() =~= m.push((action, seq![input])));
            },
        }
    }

    /// Removes every binding.
    pub fn clear(&mut self)
        ensures
            final(self).mapping_view() == Seq::<(Action, Seq<Input>)>::empty(),
    {
        self.mappings.clear();
        assert(self.mapping_view() =~= Seq::<(Action, Seq<Input>)>::empty());
    }

    fn push_entry(&mut self, action: Action, first: Input, second: Option<Input>)
        ensures
            final(self).mapping_view() == old(self).mapping_view().push(
                (
                    action,
                    match second {
                        Some(s) => seq![first, s],
                        None => seq![first],
                    },
                ),
            ),
    {
        let ghost m = self.mapping_view();
        let mut inputs: Vec<Input> = Vec::new();
        inputs.push(first);
        match second {
            Some(s) => {
                inputs.push(s);
                assert(inputs@ =~= seq![first, s]);
            },
            None => {
                assert(inputs@ =~= seq![first]);
            },
        }
        self.mappings.push(ActionInputs { action, inputs });
        assert(self.mapping_view() =~= m.push((action, inputs@)));
    }
}

impl Default for ControlsSettings {
    /// The default bindings.
    fn default() -> (c: Self)
        ensures
            c.mapping_view() == default_mappings(),
    {
        let mut c = ControlsSettings::empty();
        c.push_entry(Action::CameraForward, Input::Keyboard(KeyCode::W), Some(Input::Keyboard(KeyCode::Up)));
        c.push_entry(Action::CameraBackward, Input::Keyboard(KeyCode::S), Some(Input::Keyboard(KeyCode::Down)));
        c.push_entry(Action::CameraLeft, Input::Keyboard(KeyCode::A), Some(Input::Keyboard(KeyCode::Left)));
        c.push_entry(Action::CameraRight, Input::Keyboard(KeyCode::D), Some(Input::Keyboard(KeyCode::Right)));
        c.push_entry(Action::RotateCamera, Input::Mouse(MouseButton::Right), None);
        c.push_entry(Action::ZoomCamera, Input::MouseWheelY, None);
        c.push_entry(Action::RotateObject, Input::Mouse(MouseButton::Right), None);
        c.push_entry(Action::Confirm, Input::Mouse(MouseButton::Left), None);
        c.push_entry(Action::Delete, Input::Keyboard(KeyCode::Delete), None);
        c.push_entry(Action::Cancel, Input::Keyboard(KeyCode::Escape), None);
        assert(c.mapping_view() =~= default_mappings());
        c
    }
}

/// The inputs bound to `action` in `m`, if it has an entry.
pub open spec fn bound_inputs(m: Seq<(Action, Seq<Input>)>, action: Action) -> Option<Seq<Input>> {
    match action_index(m, action) {
        Some(i) => Some(m[i].1),
        None => None,
    }
}

/// The default bindings: the camera moves with W/Up, S/Down, A/Left and
/// D/Right, rotates with the right mouse button and zooms with the wheel;
/// objects rotate with the right mouse button; the left button confirms,
/// Delete deletes and Escape cancels.
pub proof fn lemma_default_bindings()
    ensures
        bound_inputs(default_mappings(), Action::CameraForward) == Some(
            seq![Input::Keyboard(KeyCode::W), Input::Keyboard(KeyCode::Up)],
        ),
        bound_inputs(default_mappings(), Action::CameraBackward) == Some(
            seq![Input::Keyboard(KeyCode::S), Input::Keyboard(KeyCode::Down)],
        ),
        bound_inputs(default_mappings(), Action::CameraLeft) == Some(
            seq![Input::Keyboard(KeyCode::A), Input::Keyboard(KeyCode::Left)],
        ),
        bound_inputs(default_mappings(), Action::CameraRight) == Some(
            seq![Input::Keyboard(KeyCode::D), Input::Keyboard(KeyCode::Right)],
        ),
        bound_inputs(default_mappings(), Action::RotateCamera) == Some(seq![Input::Mouse(MouseButton::Right)]),
        bound_inputs(default_mappings(), Action::ZoomCamera) == Some(seq![Input::MouseWheelY]),
        bound_inputs(default_mappings(), Action::RotateObject) == Some(seq![Input::Mouse(MouseButton::Right)]),
        bound_inputs(default_mappings(), Action::Confirm) == Some(seq![Input::Mouse(MouseButton::Left)]),
        bound_inputs(default_mappings(), Action::Delete) == Some(seq![Input::Keyboard(KeyCode::Delete)]),
        bound_inputs(default_mappings(), Action::Cancel) == Some(seq![Input::Keyboard(KeyCode::Escape)]),
{
    reveal_with_fuel(action_index, 11);
}

/// The default bindings give each action one entry.
pub proof fn lemma_default_actions_distinct()
    ensures
        actions_distinct(default_mappings()),
{
}

/// Video settings.
#[derive(Clone, Copy, PartialEq, Eq, Structural, Debug)]
pub struct VideoSettings {
    pub perf_stats: bool,
}

/// Developer settings.
#[derive(Clone, Copy, PartialEq, Eq, Structural, Debug)]
pub struct DeveloperSettings {
    pub game_inspector: bool,
    pub debug_collisions: bool,
    pub debug_paths: bool,
    pub wireframe: bool,
}

/// All settings of the game.
pub struct Settings {
    pub video: VideoSettings,
    pub controls: ControlsSettings,
    pub developer: DeveloperSettings,
}

impl Default for Settings {
    /// Everything off, the default bindings.
    fn default() -> (s: Self)
        ensures
            !s.video.perf_stats,
            s.controls.mapping_view() == default_mappings(),
            !s.developer.game_inspector,
            !s.developer.debug_collisions,
            !s.developer.debug_paths,
            !s.developer.wireframe,
    {
        Settings {
            video: VideoSettings { perf_stats: false },
            controls: ControlsSettings::default(),
            developer: DeveloperSettings {
                game_inspector: false,
                debug_collisions: false,
                debug_paths: false,
                wireframe: false,
            },
        }
    }
}

/// A boolean setting that has a checkbox in the settings menu.
#[derive(Clone, Copy, PartialEq, Eq, Structural, Debug)]
pub enum SettingsField {
    PerfStats,
    DebugCollisions,
    Wireframe,
    DebugPaths,
}

impl SettingsField {
    /// The field's path in the settings, as the menu names it.
    pub fn path(self) -> (p: &'static str)
        ensures
            p@ == match self {
                SettingsField::PerfStats => "video.perf_stats"@,
                SettingsField::DebugCollisions => "developer.debug_collisions"@,
                SettingsField::Wireframe => "developer.wireframe"@,
                SettingsField::DebugPaths => "developer.debug_paths"@,
            },
    {
        match self {
            SettingsField::PerfStats => "video.perf_stats",
            SettingsField::DebugCollisions => "developer.debug_collisions",
            SettingsField::Wireframe => "developer.wireframe",
            SettingsField::DebugPaths => "developer.debug_paths",
        }
    }
}

/// The value of a boolean setting.
pub open spec fn field_value(video: VideoSettings, developer: DeveloperSettings, field: SettingsField) -> bool {
    match field {
        SettingsField::PerfStats => video.perf_stats,
        SettingsField::DebugCollisions => developer.debug_collisions,
        SettingsField::Wireframe => developer.wireframe,
        SettingsField::DebugPaths => developer.debug_paths,
    }
}

/// Each checkbox of the settings menu reads the setting its path names: the
/// performance statistics, the collision shapes, the wireframe and the
/// navigation paths.
pub proof fn lemma_field_value_names_field(video: VideoSettings, developer: DeveloperSettings)
    ensures
        field_value(video, developer, SettingsField::PerfStats) == video.perf_stats,
        field_value(video, developer, SettingsField::DebugCollisions) == developer.debug_collisions,
        field_value(video, developer, SettingsField::Wireframe) == developer.wireframe,
        field_value(video, developer, SettingsField::DebugPaths) == developer.debug_paths,
{
}

impl Settings {
    /// Reads a boolean setting.
    pub fn field(&self, field: SettingsField) -> (b: bool)
        ensures
            b == field_value(self.video, self.developer, field),
            b == match field {
                SettingsField::PerfStats => self.video.perf_stats,
                SettingsField::DebugCollisions => self.developer.debug_collisions,
                SettingsField::Wireframe => self.developer.wireframe,
                SettingsField::DebugPaths => self.developer.debug_paths,
            },
    {
        match field {
            SettingsField::PerfStats => self.video.perf_stats,
            SettingsField::DebugCollisions => self.developer.debug_collisions,
            SettingsField::Wireframe => self.developer.wireframe,
            SettingsField::DebugPaths => self.developer.debug_paths,
        }
    }

    /// Writes a boolean setting and nothing else.
    pub fn set_field(&mut self, field: SettingsField, value: bool)
        ensures
            field_value(final(self).video, final(self).developer, field) == value,
            forall|other: SettingsField|
                other != field ==> field_value(final(self).video, final(self).developer, other)
                    == field_value(old(self).video, old(self).developer, other),
            final(self).developer.game_inspector == old(self).developer.game_inspector,
            final(self).controls.mapping_view() == old(self).controls.mapping_view(),
            final(self).video.perf_stats == if field == SettingsField::PerfStats {
                value
            } else {
                old(self).video.perf_stats
            },
            final(self).developer.debug_collisions == if field == SettingsField::DebugCollisions {
                value
            } else {
                old(self).developer.debug_collisions
            },
            final(self).developer.wireframe == if field == SettingsField::Wireframe {
                value
            } else {
                old(self).developer.wireframe
            },
            final(self).developer.debug_paths == if field == SettingsField::DebugPaths {
                value
            } else {
                old(self).developer.debug_paths
            },
    {
        match field {
            SettingsField::PerfStats => self.video.perf_stats = value,
            SettingsField::DebugCollisions => self.developer.debug_collisions = value,
            SettingsField::Wireframe => self.developer.wireframe = value,
            SettingsField::DebugPaths => self.developer.debug_paths = value,
        }
    }
}

/// A keyboard event: the key, if it has a key code, and whether it was released.
#[derive(Clone, Copy, PartialEq, Eq, Structural, Debug)]
pub struct KeyEvent {
    pub key: Option<KeyCode>,
    pub released: bool,
}

/// A mouse button event.
#[derive(Clone, Copy, PartialEq, Eq, Structural, Debug)]
pub struct MouseEvent {
    pub button: MouseButton,
    pub released: bool,
}

/// The first gamepad event of a frame.
#[derive(Clone, Copy, PartialEq, Eq, Structural, Debug)]
pub enum GamepadEvent {
    /// A button changed; `fully_pressed` when its strength reached one.
    ButtonChanged { button: u32, fully_pressed: bool },
    /// Any other gamepad event.
    Other,
}

/// The first released key that has a key code.
pub open spec fn first_released_key(keys: Seq<KeyEvent>) -> Option<KeyCode>
    decreases keys.len(),
{
    if keys.len() == 0 {
        None
    } else if keys[0].released && keys[0].key is Some {
        keys[0].key
    } else {
        first_released_key(keys.drop_first())
    }
}

/// The first released mouse button.
pub open spec fn first_released_button(buttons: Seq<MouseEvent>) -> Option<MouseButton>
    decreases buttons.len(),
{
    if buttons.len() == 0 {
        None
    } else if buttons[0].released {
        Some(buttons[0].button)
    } else {
        first_released_button(buttons.drop_first())
    }
}

/// The input that the binding dialog takes from a frame's events: a released
/// key first, else a released mouse button, else a gamepad button pressed
/// fully by the frame's first gamepad event.
pub fn input_from_events(keys: &[KeyEvent], buttons: &[MouseEvent], gamepad: Option<GamepadEvent>) -> (r: Option<Input>)
    ensures
        r == match first_released_key(keys@) {
            Some(key) => Some(Input::Keyboard(key)),
            None => match first_released_button(buttons@) {
                Some(button) => Some(Input::Mouse(button)),
                None => match gamepad {
                    Some(GamepadEvent::ButtonChanged { button, fully_pressed }) => if fully_pressed {
                        Some(Input::GamepadButton(button))
                    } else {
                        None
                    },
                    _ => None,
                },
            },
        },
{
    let mut i: usize = 0;
    assert(keys@.skip(0) =~= keys@);
    while i < keys.len()
        invariant
            i <= keys@.len(),
            first_released_key(keys@) == first_released_key(keys@.skip(i as int)),
        decreases keys@.len() - i,
    {
        assert(keys@.skip(i as int).drop_first() =~= keys@.skip(i + 1));
        assert(keys@.skip(i as int)[0] == keys@[i as int]);
        if keys[i].released {
            if let Some(key) = keys[i].key {
                return Some(Input::Keyboard(key));
            }
        }
        i = i + 1;
    }
    assert(keys@.skip(i as int) =~= Seq::<KeyEvent>::empty());
    let mut j: usize = 0;
    assert(buttons@.skip(0) =~= buttons@);
    while j < buttons.len()
        invariant
            j <= buttons@.len(),
            first_released_key(keys@) is None,
            first_released_button(buttons@) == first_released_button(buttons@.skip(j as int)),
        decreases buttons@.len() - j,
    {
        assert(buttons@.skip(j as int).drop_first() =~= buttons@.skip(j + 1));
        assert(buttons@.skip(j as int)[0] == buttons@[j as int]);
        if buttons[j].released {
            return Some(Input::Mouse(buttons[j].button));
        }
        j = j + 1;
    }
    assert(buttons@.skip(j as int) =~= Seq::<MouseEvent>::empty());
    match gamepad {
        Some(GamepadEvent::ButtonChanged { button, fully_pressed }) => {
            if fully_pressed {
                Some(Input::GamepadButton(button))
            } else {
                None
            }
        },
        _ => None,
    }
}

/// The number of binding buttons per action in the controls tab.
pub const INPUTS_PER_ACTION: usize = 3;

/// A binding button of the controls tab: an action and the input it shows.
#[derive(Clone, Copy, PartialEq, Eq, Structural, Debug)]
pub struct Mapping {
    pub action: Action,
    pub input: Option<Input>,
}

/// The buttons of the controls tab: [`INPUTS_PER_ACTION`] per action, in the
/// order of the bindings, showing the action's inputs and then nothing.
pub open spec fn buttons_for(m: Seq<(Action, Seq<Input>)>) -> Seq<Mapping> {
    Seq::new(
        (3 * m.len()) as nat,
        |i: int|
            Mapping {
                action: m[i / 3].0,
                input: if i % 3 < m[i / 3].1.len() {
                    Some(m[i / 3].1[i % 3])
                } else {
                    None
                },
            },
    )
}

/// Builds the binding buttons of the controls tab.
pub fn mapping_buttons(controls: &ControlsSettings) -> (buttons: Vec<Mapping>)
    requires
        controls.mapping_view().len() <= usize::MAX / 3,
    ensures
        buttons@ == buttons_for(controls.mapping_view()),
{
    let ghost m = controls.mapping_view();
    let mut buttons: Vec<Mapping> = Vec::new();
    let n = controls.len();
    let mut a: usize = 0;
    while a < n
        invariant
            m == controls.mapping_view(),
            n == m.len(),
            n <= usize::MAX / 3,
            a <= n,
            buttons@.len() == 3 * a,
            forall|i: int| 0 <= i < 3 * a ==> buttons@[i] == #[trigger] buttons_for(m)[i],
        decreases n - a,
    {
        let (action, inputs) = controls.entry(a);
        let mut b: usize = 0;
        while b < INPUTS_PER_ACTION
            invariant
                m == controls.mapping_view(),
                a < n,
                n == m.len(),
                n <= usize::MAX / 3,
                action == m[a as int].0,
                inputs@ == m[a as int].1,
                b <= 3,
                buttons@.len() == 3 * a + b,
                forall|i: int| 0 <= i < 3 * a + b ==> buttons@[i] == #[trigger] buttons_for(m)[i],
            decreases 3 - b,
        {
            let input = if b < inputs.len() {
                Some(inputs[b])
            } else {
                None
            };
            buttons.push(Mapping { action, input });
            proof {
                let i = 3 * a + b;
                assert(i / 3 == a && i % 3 == b);
            }
            b = b + 1;
        }
        a = a + 1;
    }
    assert(buttons@ =~= buttons_for(m));
    buttons
}

/// The first button that shows `input`.
pub open spec fn input_index(b: Seq<Mapping>, input: Input) -> Option<int>
    decreases b.len(),
{
    if b.len() == 0 {
        None
    } else {
        match input_index(b.drop_last(), input) {
            Some(i) => Some(i),
            None => if b.last().input == Some(input) {
                Some(b.len() - 1)
            } else {
                None
            },
        }
    }
}

pub proof fn lemma_input_index(b: Seq<Mapping>, input: Input)
    ensures
        match input_index(b, input) {
            Some(i) => 0 <= i < b.len() && b[i].input == Some(input) && forall|j: int|
                0 <= j < i ==> b[j].input != Some(input),
            None => forall|j: int| 0 <= j < b.len() ==> b[j].input != Some(input),
        },
    decreases b.len(),
{
    if b.len() > 0 {
        let rest = b.drop_last();
        lemma_input_index(rest, input);
        assert forall|j: int| 0 <= j < rest.len() implies rest[j] == b[j] by {}
    }
}

/// No input is shown by two buttons.
pub open spec fn inputs_unique(b: Seq<Mapping>) -> bool {
    forall|i: int, j: int| 0 <= i < j < b.len() && b[i].input is Some ==> b[i].input != b[j].input
}

/// What pressing an input in the binding dialog did.
#[derive(Clone, Copy, PartialEq, Eq, Structural, Debug)]
pub enum BindOutcome {
    /// The input was free and is now shown by the binding button.
    Bound,
    /// The input is already shown by the button at this index: the dialog
    /// offers to replace it.
    Conflict(usize),
}

/// Binds `input` to the button at `binding`, unless a button already shows it.
pub fn bind(buttons: &mut Vec<Mapping>, binding: usize, input: Input) -> (r: BindOutcome)
    requires
        binding < old(buttons)@.len(),
    ensures
        match input_index(old(buttons)@, input) {
            Some(i) => r == BindOutcome::Conflict(i as usize) && final(buttons)@ == old(buttons)@,
            None => r == BindOutcome::Bound && final(buttons)@ == old(buttons)@.update(
                binding as int,
                Mapping { action: old(buttons)@[binding as int].action, input: Some(input) },
            ),
        },
        inputs_unique(old(buttons)@) ==> inputs_unique(final(buttons)@),
{
    let ghost b0 = buttons@;
    proof {
        lemma_input_index(b0, input);
    }
    let mut i: usize = 0;
    while i < buttons.len()
        invariant
            buttons@ == b0,
            i <= b0.len(),
            forall|j: int| 0 <= j < i ==> b0[j].input != Some(input),
        decreases b0.len() - i,
    {
        if buttons[i].input == Some(input) {
            proof {
                assert(input_index(b0, input) == Some(i as int)) by {
                    lemma_input_index(b0, input);
                    match input_index(b0, input) {
                        Some(k) => {
                            if k < i {} else if k > i {}
                        },
                        None => {},
                    }
                }
            }
            return BindOutcome::Conflict(i);
        }
        i = i + 1;
    }
    let action = buttons[binding].action;
    buttons.set(binding, Mapping { action, input: Some(input) });
    BindOutcome::Bound
}

/// The buttons of the binding dialog.
#[derive(Clone, Copy, PartialEq, Eq, Structural, Debug)]
pub enum BindingDialogButton {
    /// Moves the conflicting input to the binding button.
    Replace,
    /// Clears the binding button.
    Delete,
    Cancel,
}

/// Applies the dialog button `choice` to the binding button at `binding`;
/// `conflict` is the button that shows the pressed input, if there was a conflict.
pub fn resolve_binding(
    buttons: &mut Vec<Mapping>,
    binding: usize,
    conflict: Option<usize>,
    choice: BindingDialogButton,
)
    requires
        binding < old(buttons)@.len(),
        choice == BindingDialogButton::Replace ==> (conflict matches Some(c) && c < old(buttons)@.len()),
    ensures
        final(buttons)@ == match choice {
            BindingDialogButton::Replace => {
                let c = conflict.unwrap() as int;
                let moved = old(buttons)@[c].input;
                let cleared = old(buttons)@.update(c, Mapping { action: old(buttons)@[c].action, input: None });
                cleared.update(binding as int, Mapping { action: cleared[binding as int].action, input: moved })
            },
            BindingDialogButton::Delete => old(buttons)@.update(
                binding as int,
                Mapping { action: old(buttons)@[binding as int].action, input: None },
            ),
            BindingDialogButton::Cancel => old(buttons)@,
        },
        inputs_unique(old(buttons)@) ==> inputs_unique(final(buttons)@),
{
    let ghost b0 = buttons@;
    match choice {
        BindingDialogButton::Replace => {
            let c = conflict.expect("replace button should be clickable only with conflict");
            let input = buttons[c].input;
            let conflict_action = buttons[c].action;
            buttons.set(c, Mapping { action: conflict_action, input: None });
            let action = buttons[binding].action;
            buttons.set(binding, Mapping { action, input });
            proof {
                if inputs_unique(b0) {
                    let f = buttons@;
                    assert forall|i: int, j: int| 0 <= i < j < f.len() && f[i].input is Some implies f[i].input != f[j].input by {
                        if i == binding as int {
                            if j != c { assert(f[j] == b0[j]); if c < j {} else {} }
                        } else if j == binding as int {
                            if i != c { assert(f[i] == b0[i]); }
                        } else {
                            assert(f[i].input is Some ==> i != c);
                            assert(j != c ==> f[j] == b0[j]);
                        }
                    }
                }
            }
        },
        BindingDialogButton::Delete => {
            let action = buttons[binding].action;
            buttons.set(binding, Mapping { action, input: None });
        },
        BindingDialogButton::Cancel => {},
    }
}

/// The bindings that the buttons show: for each button with an input, in
/// order, the input is appended to its action's entry.
pub open spec fn collect_inputs(b: Seq<Mapping>) -> Seq<(Action, Seq<Input>)>
    decreases b.len(),
{
    if b.len() == 0 {
        Seq::empty()
    } else {
        let m = collect_inputs(b.drop_last());
        match b.last().input {
            Some(input) => add_input(m, b.last().action, input),
            None => m,
        }
    }
}

/// Replaces the bindings with those that the buttons show, when the settings
/// menu is confirmed.
pub fn apply_mappings(controls: &mut ControlsSettings, buttons: &[Mapping])
    ensures
        final(controls).mapping_view() == collect_inputs(buttons@),
{
    controls.clear();
    let mut i: usize = 0;
    while i < buttons.len()
        invariant
            i <= buttons@.len(),
            controls.mapping_view() == collect_inputs(buttons@.take(i as int)),
        decreases buttons@.len() - i,
    {
        let mapping = buttons[i];
        if let Some(input) = mapping.input {
            controls.push_input(mapping.action, input);
        }
        i = i + 1;
        assert(buttons@.take(i as int).drop_last() =~= buttons@.take(i - 1));
    }
    assert(buttons@.take(buttons@.len() as int) =~= buttons@);
}

/// Adding an input keeps one entry per action.
pub proof fn lemma_add_input_distinct(m: Seq<(Action, Seq<Input>)>, action: Action, input: Input)
    requires
        actions_distinct(m),
    ensures
        actions_distinct(add_input(m, action, input)),
{
    lemma_action_index(m, action);
}

/// The bindings collected from any buttons have one entry per action.
pub proof fn lemma_collect_distinct(b: Seq<Mapping>)
    ensures
        actions_distinct(collect_inputs(b)),
    decreases b.len(),
{
    if b.len() > 0 {
        lemma_collect_distinct(b.drop_last());
        if let Some(input) = b.last().input {
            lemma_add_input_distinct(collect_inputs(b.drop_last()), b.last().action, input);
        }
    }
}

proof fn lemma_collect_push(b: Seq<Mapping>, x: Mapping)
    ensures
        collect_inputs(b.push(x)) == match x.input {
            Some(input) => add_input(collect_inputs(b), x.action, input),
            None => collect_inputs(b),
        },
{
    assert(b.push(x).drop_last() =~= b);
}

proof fn lemma_index_of_last(m: Seq<(Action, Seq<Input>)>, action: Action, s: Seq<Input>)
    requires
        forall|j: int| 0 <= j < m.len() ==> m[j].0 != action,
    ensures
        action_index(m.push((action, s)), action) == Some(m.len() as int),
{
    lemma_action_index(m.push((action, s)), action);
    match action_index(m.push((action, s)), action) {
        Some(i) => {
            if i < m.len() {
                assert(m.push((action, s))[i] == m[i]);
            }
        },
        None => {
            assert(m.push((action, s))[m.len() as int].0 == action);
        },
    }
}

proof fn lemma_round_trip_prefix(m: Seq<(Action, Seq<Input>)>, n: int)
    requires
        actions_distinct(m),
        forall|k: int| 0 <= k < m.len() ==> 1 <= (#[trigger] m[k]).1.len() <= 3,
        0 <= n <= m.len(),
    ensures
        collect_inputs(buttons_for(m).take(3 * n)) == m.take(n),
    decreases n,
{
    let b = buttons_for(m);
    if n == 0 {
        assert(b.take(0) =~= Seq::<Mapping>::empty());
        assert(m.take(0) =~= Seq::<(Action, Seq<Input>)>::empty());
    } else {
        let k = n - 1;
        lemma_round_trip_prefix(m, k);
        let a = m[k].0;
        let s = m[k].1;
        let prev = m.take(k);
        assert forall|j: int| 0 <= j < prev.len() implies prev[j].0 != a by {
            assert(prev[j] == m[j]);
        }
        assert(b[3 * k] == Mapping { action: a, input: Some(s[0]) }) by {
            assert((3 * k) / 3 == k && (3 * k) % 3 == 0);
        }
        assert(b[3 * k + 1] == Mapping { action: a, input: if 1 < s.len() { Some(s[1]) } else { None } }) by {
            assert((3 * k + 1) / 3 == k && (3 * k + 1) % 3 == 1);
        }
        assert(b[3 * k + 2] == Mapping { action: a, input: if 2 < s.len() { Some(s[2]) } else { None } }) by {
            assert((3 * k + 2) / 3 == k && (3 * k + 2) % 3 == 2);
        }
        assert(b.take(3 * k + 1) =~= b.take(3 * k).push(b[3 * k]));
        assert(b.take(3 * k + 2) =~= b.take(3 * k + 1).push(b[3 * k + 1]));
        assert(b.take(3 * k + 3) =~= b.take(3 * k + 2).push(b[3 * k + 2]));
        lemma_collect_push(b.take(3 * k), b[3 * k]);
        lemma_collect_push(b.take(3 * k + 1), b[3 * k + 1]);
        lemma_collect_push(b.take(3 * k + 2), b[3 * k + 2]);
        lemma_action_index(prev, a);
        let m1 = prev.push((a, seq![s[0]]));
        assert(collect_inputs(b.take(3 * k + 1)) == m1);
        lemma_index_of_last(prev, a, seq![s[0]]);
        let m2 = if 1 < s.len() { prev.push((a, seq![s[0], s[1]])) } else { m1 };
        if 1 < s.len() {
            assert(seq![s[0]].push(s[1]) =~= seq![s[0], s[1]]);
            assert(m1.update(prev.len() as int, (a, seq![s[0]].push(s[1]))) =~= prev.push((a, seq![s[0], s[1]])));
        }
        assert(collect_inputs(b.take(3 * k + 2)) == m2);
        lemma_index_of_last(prev, a, seq![s[0], s[1]]);
        let m3 = if 2 < s.len() { prev.push((a, seq![s[0], s[1], s[2]])) } else { m2 };
        if 2 < s.len() {
            assert(seq![s[0], s[1]].push(s[2]) =~= seq![s[0], s[1], s[2]]);
            assert(prev.push((a, seq![s[0], s[1]])).update(prev.len() as int, (a, seq![s[0], s[1]].push(s[2]))) =~= prev.push((a, seq![s[0], s[1], s[2]])));
        }
        assert(collect_inputs(b.take(3 * k + 3)) == m3);
        assert(m3 =~= m.take(k + 1)) by {
            if s.len() == 1 {
                assert(s =~= seq![s[0]]);
            } else if s.len() == 2 {
                assert(s =~= seq![s[0], s[1]]);
            } else {
                assert(s =~= seq![s[0], s[1], s[2]]);
            }
        }
    }
}

/// Building the buttons of the controls tab from bindings and confirming the
/// menu at once gives the same bindings back, when each action has one entry
/// with one to [`INPUTS_PER_ACTION`] inputs.
pub proof fn lemma_buttons_round_trip(m: Seq<(Action, Seq<Input>)>)
    requires
        actions_distinct(m),
        forall|k: int| 0 <= k < m.len() ==> 1 <= (#[trigger] m[k]).1.len() <= 3,
    ensures
        collect_inputs(buttons_for(m)) == m,
{
    lemma_round_trip_prefix(m, m.len() as int);
    assert(buttons_for(m).take(3 * m.len() as int) =~= buttons_for(m));
    assert(m.take(m.len() as int) =~= m);
}
} // verus!
