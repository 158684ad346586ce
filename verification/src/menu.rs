//! Decisions of the menus and dialogs: what each button does.
use vstd::prelude::*;
use vstd::string::StringSliceAdditionalSpecFns;

verus! {

/// The buttons of the in-game menu.
#[derive(Clone, Copy, PartialEq, Eq, Structural, Debug)]
pub enum IngameMenuButton {
    Resume,
    Save,
    Settings,
    World,
    MainMenu,
    ExitGame,
}

/// The exit confirmation dialogs.
#[derive(Clone, Copy, PartialEq, Eq, Structural, Debug)]
pub enum ExitDialog {
    MainMenu,
    Game,
}

/// What a button of the in-game menu does.
#[derive(Clone, Copy, PartialEq, Eq, Structural, Debug)]
pub enum IngameAction {
    /// Closes the menu.
    Close,
    /// Saves the game and closes the menu.
    SaveAndClose,
    OpenSettings,
    /// Goes to the world state.
    OpenWorld,
    /// Asks for confirmation before exiting.
    ConfirmExit(ExitDialog),
}

pub fn ingame_action(button: IngameMenuButton) -> (a: IngameAction)
    ensures
        a == match button {
            IngameMenuButton::Resume => IngameAction::Close,
            IngameMenuButton::Save => IngameAction::SaveAndClose,
            IngameMenuButton::Settings => IngameAction::OpenSettings,
            IngameMenuButton::World => IngameAction::OpenWorld,
            IngameMenuButton::MainMenu => IngameAction::ConfirmExit(ExitDialog::MainMenu),
            IngameMenuButton::ExitGame => IngameAction::ConfirmExit(ExitDialog::Game),
        },
{
    match button {
        IngameMenuButton::Resume => IngameAction::Close,
        IngameMenuButton::Save => IngameAction::SaveAndClose,
        IngameMenuButton::Settings => IngameAction::OpenSettings,
        IngameMenuButton::World => IngameAction::OpenWorld,
        IngameMenuButton::MainMenu => IngameAction::ConfirmExit(ExitDialog::MainMenu),
        IngameMenuButton::ExitGame => IngameAction::ConfirmExit(ExitDialog::Game),
    }
}

impl IngameMenuButton {
    /// Every button, in display order.
    pub fn all() -> (v: Vec<IngameMenuButton>)
        ensures
            v@ == seq![
                IngameMenuButton::Resume,
                IngameMenuButton::Save,
                IngameMenuButton::Settings,
                IngameMenuButton::World,
                IngameMenuButton::MainMenu,
                IngameMenuButton::ExitGame,
            ],
    {
        let v = vec![
            IngameMenuButton::Resume,
            IngameMenuButton::Save,
            IngameMenuButton::Settings,
            IngameMenuButton::World,
            IngameMenuButton::MainMenu,
            IngameMenuButton::ExitGame,
        ];
        v
    }

    /// The button's text.
    pub fn label(self) -> (s: &'static str)
        ensures
            s@ == match self {
                IngameMenuButton::Resume => "Resume"@,
                IngameMenuButton::Save => "Save"@,
                IngameMenuButton::Settings => "Settings"@,
                IngameMenuButton::World => "World"@,
                IngameMenuButton::MainMenu => "Main menu"@,
                IngameMenuButton::ExitGame => "Exit game"@,
            },
    {
        match self {
            IngameMenuButton::Resume => "Resume",
            IngameMenuButton::Save => "Save",
            IngameMenuButton::Settings => "Settings",
            IngameMenuButton::World => "World",
            IngameMenuButton::MainMenu => "Main menu",
            IngameMenuButton::ExitGame => "Exit game",
        }
    }
}

impl ExitDialog {
    /// The question the dialog asks.
    pub fn label(self) -> (s: &'static str)
        ensures
            s@ == match self {
                ExitDialog::MainMenu => "Are you sure you want to exit to the main menu?"@,
                ExitDialog::Game => "Are you sure you want to exit the game?"@,
            },
    {
        match self {
            ExitDialog::MainMenu => "Are you sure you want to exit to the main menu?",
            ExitDialog::Game => "Are you sure you want to exit the game?",
        }
    }
}

/// The buttons of an exit dialog.
#[derive(Clone, Copy, PartialEq, Eq, Structural, Debug)]
pub enum ExitDialogButton {
    SaveAndExit,
    Exit,
    Cancel,
}

impl ExitDialogButton {
    /// The button's text.
    pub fn label(self) -> (s: &'static str)
        ensures
            s@ == match self {
                ExitDialogButton::SaveAndExit => "Save & exit"@,
                ExitDialogButton::Exit => "Exit"@,
                ExitDialogButton::Cancel => "Cancel"@,
            },
    {
        match self {
            ExitDialogButton::SaveAndExit => "Save & exit",
            ExitDialogButton::Exit => "Exit",
            ExitDialogButton::Cancel => "Cancel",
        }
    }
}

/// Where an exit dialog leads.
#[derive(Clone, Copy, PartialEq, Eq, Structural, Debug)]
pub enum ExitTarget {
    /// Forgets the world and goes to the main menu.
    MainMenu,
    /// Quits the application.
    Quit,
    /// Closes the dialog and stays in the game.
    Stay,
}

/// What a button of an exit dialog does: whether the game is saved first, and
/// where it leads.
pub fn exit_action(dialog: ExitDialog, button: ExitDialogButton) -> (r: (bool, ExitTarget))
    ensures
        r == match button {
            ExitDialogButton::Cancel => (false, ExitTarget::Stay),
            _ => (
                button == ExitDialogButton::SaveAndExit,
                match dialog {
                    ExitDialog::MainMenu => ExitTarget::MainMenu,
                    ExitDialog::Game => ExitTarget::Quit,
                },
            ),
        },
{
    let target = match dialog {
        ExitDialog::MainMenu => ExitTarget::MainMenu,
        ExitDialog::Game => ExitTarget::Quit,
    };
    match button {
        ExitDialogButton::SaveAndExit => (true, target),
        ExitDialogButton::Exit => (false, target),
        ExitDialogButton::Cancel => (false, ExitTarget::Stay),
    }
}

/// The buttons of the dialog that places a new family in a city.
#[derive(Clone, Copy, PartialEq, Eq, Structural, Debug)]
pub enum CityPlaceButton {
    PlaceAndPlay,
    Place,
}

/// What placing a family in a city does.
#[derive(Clone, Copy, PartialEq, Eq, Structural, Debug)]
pub struct FamilyPlacement {
    /// The family becomes the played one.
    pub select: bool,
    /// The dialog closes and the family editor starts over.
    pub close_and_reset: bool,
}

pub fn family_placement(button: CityPlaceButton) -> (p: FamilyPlacement)
    ensures
        p == match button {
            CityPlaceButton::PlaceAndPlay => FamilyPlacement { select: true, close_and_reset: false },
            CityPlaceButton::Place => FamilyPlacement { select: false, close_and_reset: true },
        },
{
    match button {
        CityPlaceButton::PlaceAndPlay => FamilyPlacement { select: true, close_and_reset: false },
        CityPlaceButton::Place => FamilyPlacement { select: false, close_and_reset: true },
    }
}

impl CityPlaceButton {
    /// The button's text.
    pub fn label(self) -> (s: &'static str)
        ensures
            s@ == match self {
                CityPlaceButton::Place => "Place"@,
                CityPlaceButton::PlaceAndPlay => "Place & play"@,
            },
    {
        match self {
            CityPlaceButton::Place => "Place",
            CityPlaceButton::PlaceAndPlay => "Place & play",
        }
    }
}

/// The buttons of the main menu.
#[derive(Clone, Copy, PartialEq, Eq, Structural, Debug)]
pub enum MainMenuButton {
    Play,
    Settings,
    Exit,
}

/// What a button of the main menu does.
#[derive(Clone, Copy, PartialEq, Eq, Structural, Debug)]
pub enum MainMenuAction {
    /// Goes to the world browser.
    BrowseWorlds,
    OpenSettings,
    /// Quits the application.
    Quit,
}

impl MainMenuButton {
    /// The buttons, top to bottom.
    pub fn all() -> (v: Vec<MainMenuButton>)
        ensures
            v@ == seq![MainMenuButton::Play, MainMenuButton::Settings, MainMenuButton::Exit],
    {
        vec![MainMenuButton::Play, MainMenuButton::Settings, MainMenuButton::Exit]
    }

    /// The button's text.
    pub fn label(self) -> (s: &'static str)
        ensures
            s@ == match self {
                MainMenuButton::Play => "Play"@,
                MainMenuButton::Settings => "Settings"@,
                MainMenuButton::Exit => "Exit"@,
            },
    {
        match self {
            MainMenuButton::Play => "Play",
            MainMenuButton::Settings => "Settings",
            MainMenuButton::Exit => "Exit",
        }
    }
}

pub fn main_menu_action(button: MainMenuButton) -> (a: MainMenuAction)
    ensures
        a == match button {
            MainMenuButton::Play => MainMenuAction::BrowseWorlds,
            MainMenuButton::Settings => MainMenuAction::OpenSettings,
            MainMenuButton::Exit => MainMenuAction::Quit,
        },
{
    match button {
        MainMenuButton::Play => MainMenuAction::BrowseWorlds,
        MainMenuButton::Settings => MainMenuAction::OpenSettings,
        MainMenuButton::Exit => MainMenuAction::Quit,
    }
}

/// The buttons under the list of worlds.
#[derive(Clone, Copy, PartialEq, Eq, Structural, Debug)]
pub enum WorldBrowserButton {
    Create,
    Join,
}

/// The buttons beside each world of the list.
#[derive(Clone, Copy, PartialEq, Eq, Structural, Debug)]
pub enum WorldButton {
    Play,
    Host,
    Remove,
}

/// The dialogs of the world browser.
#[derive(Clone, Copy, PartialEq, Eq, Structural, Debug)]
pub enum WorldDialog {
    /// Names a new world.
    Create,
    /// Asks for the address of a hosted world.
    Join,
    /// Asks for the port to host a world on.
    Host,
    /// Asks to confirm that a world is removed.
    Remove,
}

/// What a button beside a world does.
#[derive(Clone, Copy, PartialEq, Eq, Structural, Debug)]
pub enum WorldAction {
    /// Loads the world.
    Load,
    Open(WorldDialog),
}

impl WorldBrowserButton {
    pub fn label(self) -> (s: &'static str)
        ensures
            s@ == match self {
                WorldBrowserButton::Create => "Create"@,
                WorldBrowserButton::Join => "Join"@,
            },
    {
        match self {
            WorldBrowserButton::Create => "Create",
            WorldBrowserButton::Join => "Join",
        }
    }

    /// The dialog the button opens.
    pub fn dialog(self) -> (d: WorldDialog)
        ensures
            d == match self {
                WorldBrowserButton::Create => WorldDialog::Create,
                WorldBrowserButton::Join => WorldDialog::Join,
            },
    {
        match self {
            WorldBrowserButton::Create => WorldDialog::Create,
            WorldBrowserButton::Join => WorldDialog::Join,
        }
    }
}

impl WorldButton {
    pub fn label(self) -> (s: &'static str)
        ensures
            s@ == match self {
                WorldButton::Play => "Play"@,
                WorldButton::Host => "Host"@,
                WorldButton::Remove => "Remove"@,
            },
    {
        match self {
            WorldButton::Play => "Play",
            WorldButton::Host => "Host",
            WorldButton::Remove => "Remove",
        }
    }
}

pub fn world_action(button: WorldButton) -> (a: WorldAction)
    ensures
        a == match button {
            WorldButton::Play => WorldAction::Load,
            WorldButton::Host => WorldAction::Open(WorldDialog::Host),
            WorldButton::Remove => WorldAction::Open(WorldDialog::Remove),
        },
{
    match button {
        WorldButton::Play => WorldAction::Load,
        WorldButton::Host => WorldAction::Open(WorldDialog::Host),
        WorldButton::Remove => WorldAction::Open(WorldDialog::Remove),
    }
}

/// The text a world dialog starts with in its edit: the name of a new world.
pub fn new_world_name() -> (s: &'static str)
    ensures
        s@ == "New world"@,
{
    "New world"
}

/// Whether a world dialog closes after one of its buttons was clicked: the
/// cancel button closes it; the confirming button (create, host or remove)
/// closes it once its action succeeded, and a failed action leaves it open
/// with the error reported. The join dialog stays open while connecting.
pub fn dialog_closes(dialog: WorldDialog, confirmed: bool, failed: bool) -> (close: bool)
    ensures
        close == (!confirmed || (dialog != WorldDialog::Join && !failed)),
{
    if !confirmed {
        true
    } else {
        match dialog {
            WorldDialog::Join => false,
            _ => !failed,
        }
    }
}

impl WorldDialog {
    /// The text of the dialog's confirming button.
    pub fn confirm_label(self) -> (s: &'static str)
        ensures
            s@ == match self {
                WorldDialog::Create => "Create"@,
                WorldDialog::Join => "Join"@,
                WorldDialog::Host => "Host"@,
                WorldDialog::Remove => "Remove"@,
            },
    {
        match self {
            WorldDialog::Create => "Create",
            WorldDialog::Join => "Join",
            WorldDialog::Host => "Host",
            WorldDialog::Remove => "Remove",
        }
    }
}

/// Why a port number was refused.
#[derive(Clone, Copy, PartialEq, Eq, Structural, Debug)]
pub enum PortError {
    /// Nothing was typed.
    Empty,
    /// A character other than a digit (after an optional leading `+`).
    InvalidDigit,
    /// The number does not fit in 16 bits.
    Overflow,
}

pub open spec fn is_digit(b: u8) -> bool {
    48 <= b <= 57
}

/// Reads decimal digits from `digits`, left to right, into `acc`: the first
/// byte that is not a digit is an invalid digit, and a value that leaves 16
/// bits is an overflow, whichever comes first.
pub open spec fn read_digits(digits: Seq<u8>, acc: int) -> Result<int, PortError>
    decreases digits.len(),
{
    if digits.len() == 0 {
        Ok(acc)
    } else if !is_digit(digits[0]) {
        Err(PortError::InvalidDigit)
    } else if acc * 10 + (digits[0] - 48) > 65535 {
        Err(PortError::Overflow)
    } else {
        read_digits(digits.drop_first(), acc * 10 + (digits[0] - 48))
    }
}

/// The port that `text` names: an optional `+` and decimal digits, as
/// `u16`'s own parser reads them.
pub open spec fn port_value(text: Seq<u8>) -> Result<int, PortError> {
    if text.len() == 0 {
        Err(PortError::Empty)
    } else if text.len() == 1 && text[0] == 43 {
        Err(PortError::InvalidDigit)
    } else if text[0] == 43 {
        read_digits(text.drop_first(), 0)
    } else {
        read_digits(text, 0)
    }
}

/// Parses the port typed in the host or join dialog.
pub fn parse_port(text: &str) -> (r: Result<u16, PortError>)
    ensures
        match port_value(text.spec_bytes()) {
            Ok(v) => r == Ok::<u16, PortError>(v as u16),
            Err(e) => r == Err::<u16, PortError>(e),
        },
        r matches Ok(p) ==> port_value(text.spec_bytes()) == Ok::<int, PortError>(p as int),
{
    let bytes = text.as_bytes();
    let ghost all = bytes@;
    if bytes.len() == 0 {
        return Err(PortError::Empty);
    }
    if bytes.len() == 1 && bytes[0] == 43 {
        return Err(PortError::InvalidDigit);
    }
    let mut i: usize = if bytes[0] == 43 { 1 } else { 0 };
    let ghost start = i as int;
    let mut acc: u32 = 0;
    proof {
        assert(all.subrange(start, all.len() as int) =~= if start == 1 { all.drop_first() } else { all });
    }
    while i < bytes.len()
        invariant
            all == bytes@,
            all == text.spec_bytes(),
            all.len() > 0,
            start == if all[0] == 43 { 1int } else { 0int },
            start <= i <= all.len(),
            acc <= 65535,
            port_value(all) == read_digits(all.subrange(i as int, all.len() as int), acc as int),
        decreases all.len() - i,
    {
        let b = bytes[i];
        let ghost rest = all.subrange(i as int, all.len() as int);
        assert(rest[0] == b);
        if b < 48 || b > 57 {
            return Err(PortError::InvalidDigit);
        }
        let next = acc * 10 + (b - 48) as u32;
        if next > 65535 {
            return Err(PortError::Overflow);
        }
        assert(rest.drop_first() =~= all.subrange(i + 1, all.len() as int));
        acc = next;
        i = i + 1;
    }
    assert(all.subrange(i as int, all.len() as int) =~= Seq::<u8>::empty());
    Ok(acc as u16)
}

/// The decimal text of `n`, without leading zeros, as ASCII bytes.
pub open spec fn decimal_text(n: nat) -> Seq<u8>
    decreases n,
{
    if n < 10 {
        seq![(48 + n) as u8]
    } else {
        decimal_text(n / 10).push((48 + n % 10) as u8)
    }
}

proof fn lemma_read_digits_push(s: Seq<u8>, d: u8, acc: int)
    requires
        is_digit(d),
        0 <= acc <= 65535,
    ensures
        read_digits(s.push(d), acc) == match read_digits(s, acc) {
            Ok(v) => if v * 10 + (d - 48) > 65535 {
                Err(PortError::Overflow)
            } else {
                Ok(v * 10 + (d - 48))
            },
            Err(e) => Err(e),
        },
    decreases s.len(),
{
    let t = s.push(d);
    if s.len() == 0 {
        assert(t.drop_first() =~= Seq::<u8>::empty());
        assert(t[0] == d);
        assert(read_digits(s, acc) == Ok::<int, PortError>(acc));
        let next = acc * 10 + (d - 48);
        if next <= 65535 {
            assert(read_digits(t.drop_first(), next) == Ok::<int, PortError>(next));
        }
    } else {
        assert(t.drop_first() =~= s.drop_first().push(d));
        assert(t[0] == s[0]);
        assert(t.len() > 0);
        if is_digit(s[0]) && acc * 10 + (s[0] - 48) <= 65535 {
            lemma_read_digits_push(s.drop_first(), d, acc * 10 + (s[0] - 48));
        }
    }
}

proof fn lemma_read_decimal(n: nat)
    requires
        n <= 65535,
    ensures
        read_digits(decimal_text(n), 0) == Ok::<int, PortError>(n as int),
        decimal_text(n).len() > 0,
        forall|i: int| 0 <= i < decimal_text(n).len() ==> is_digit(#[trigger] decimal_text(n)[i]),
    decreases n,
{
    if n < 10 {
        let t = decimal_text(n);
        assert(t[0] == 48 + n);
        assert(t.drop_first() =~= Seq::<u8>::empty());
        assert(read_digits(t.drop_first(), n as int) == Ok::<int, PortError>(n as int));
    } else {
        lemma_read_decimal(n / 10);
        let d = (48 + n % 10) as u8;
        assert(d == 48 + n % 10);
        assert(decimal_text(n) == decimal_text(n / 10).push(d));
        lemma_read_digits_push(decimal_text(n / 10), d, 0);
        assert((n / 10) * 10 + n % 10 == n);
        let t = decimal_text(n);
        assert forall|i: int| 0 <= i < t.len() implies is_digit(#[trigger] t[i]) by {
            if i < t.len() - 1 {
                assert(t[i] == decimal_text(n / 10)[i]);
            }
        }
    }
}

/// The port parser reads back every port number from its decimal text, as
/// `u16`'s own parser does: the text of `n` gives `n`, for every `n` that fits
/// in 16 bits.
pub proof fn lemma_port_of_decimal(n: nat)
    requires
        n <= 65535,
    ensures
        port_value(decimal_text(n)) == Ok::<int, PortError>(n as int),
{
    lemma_read_decimal(n);
    assert(is_digit(decimal_text(n)[0]));
}

/// Every ASCII digit is read as its value.
pub proof fn lemma_digits_are_digits(b: u8)
    ensures
        is_digit(b) <==> (48 <= b && b <= 57),
{
}

} // verus!
