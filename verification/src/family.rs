//! The family editor: the actors being edited, which one the personality
//! panel shows, the check that every actor is named, and its dialogs.
use vstd::prelude::*;

use crate::widget::name_entered;

verus! {

/// The names typed for an actor of the edited family.
#[derive(Clone, Debug)]
pub struct ActorNames {
    pub first_name: String,
    pub last_name: String,
}

/// An actor is complete when both of its names are typed.
pub open spec fn named(a: ActorNames) -> bool {
    a.first_name@.len() > 0 && a.last_name@.len() > 0
}

/// Why a family cannot be saved yet; the index is the actor's place in the panel.
#[derive(Clone, Copy, PartialEq, Eq, Structural, Debug)]
pub enum FamilyError {
    MissingFirstName(usize),
    MissingLastName(usize),
}

/// What checking `actors` gives: `Ok` when every actor is named, else the
/// first actor that lacks a name, its first name reported before its last.
pub open spec fn family_check(actors: Seq<ActorNames>, r: Result<(), FamilyError>) -> bool {
    match r {
        Ok(()) => forall|i: int| 0 <= i < actors.len() ==> named(#[trigger] actors[i]),
        Err(FamilyError::MissingFirstName(i)) => i < actors.len()
            && (forall|j: int| 0 <= j < i ==> named(#[trigger] actors[j]))
            && actors[i as int].first_name@.len() == 0,
        Err(FamilyError::MissingLastName(i)) => i < actors.len()
            && (forall|j: int| 0 <= j < i ==> named(#[trigger] actors[j]))
            && actors[i as int].first_name@.len() > 0
            && actors[i as int].last_name@.len() == 0,
    }
}

/// The family may be saved when every actor has both names; otherwise the
/// first actor that lacks one is reported, its first name before its last.
pub fn check_family(actors: &[ActorNames]) -> (r: Result<(), FamilyError>)
    ensures
        family_check(actors@, r),
{
    let mut i: usize = 0;
    while i < actors.len()
        invariant
            i <= actors@.len(),
            forall|j: int| 0 <= j < i ==> named(#[trigger] actors@[j]),
        decreases actors@.len() - i,
    {
        if actors[i].first_name.as_str().is_empty() {
            return Err(FamilyError::MissingFirstName(i));
        }
        if actors[i].last_name.as_str().is_empty() {
            return Err(FamilyError::MissingLastName(i));
        }
        i = i + 1;
    }
    Ok(())
}

/// The actors of the edited family, in the order the panel shows them, and
/// the one selected for editing.
pub struct FamilyEditor<A> {
    actors: Vec<A>,
    selected: Option<usize>,
}

impl<A> FamilyEditor<A> {
    pub closed spec fn actors_view(self) -> Seq<A> {
        self.actors@
    }

    pub closed spec fn selected_view(self) -> Option<usize> {
        self.selected
    }

    /// The selection, when there is one, is an actor of the family.
    pub open spec fn wf(self) -> bool {
        match self.selected_view() {
            Some(i) => i < self.actors_view().len(),
            None => true,
        }
    }

    /// An empty family with nobody selected.
    pub fn new() -> (e: Self)
        ensures
            e.wf(),
            e.actors_view() == Seq::<A>::empty(),
            e.selected_view() == None::<usize>,
    {
        FamilyEditor { actors: Vec::new(), selected: None }
    }

    pub fn actors(&self) -> (v: &Vec<A>)
        ensures
            v@ == self.actors_view(),
    {
        &self.actors
    }

    pub fn selected(&self) -> (s: Option<usize>)
        ensures
            s == self.selected_view(),
    {
        self.selected
    }

    /// The plus button: a new actor joins the family and is selected.
    pub fn add_actor(&mut self, actor: A)
        requires
            old(self).wf(),
        ensures
            final(self).wf(),
            final(self).actors_view() == old(self).actors_view().push(actor),
            final(self).selected_view() == Some(old(self).actors_view().len() as usize),
    {
        self.actors.push(actor);
        self.selected = Some(self.actors.len() - 1);
    }

    /// A click on an actor's button selects it; a click past the end selects nothing new.
    pub fn select(&mut self, index: usize)
        requires
            old(self).wf(),
        ensures
            final(self).wf(),
            final(self).actors_view() == old(self).actors_view(),
            final(self).selected_view() == if index < old(self).actors_view().len() {
                Some(index)
            } else {
                old(self).selected_view()
            },
    {
        if index < self.actors.len() {
            self.selected = Some(index);
        }
    }

    /// The personality panel edits the selected actor: `edited` replaces it.
    /// Nothing changes when nobody is selected.
    pub fn replace_selected(&mut self, edited: A)
        requires
            old(self).wf(),
        ensures
            final(self).wf(),
            final(self).selected_view() == old(self).selected_view(),
            final(self).actors_view() == match old(self).selected_view() {
                Some(i) => old(self).actors_view().update(i as int, edited),
                None => old(self).actors_view(),
            },
    {
        match self.selected {
            Some(i) => {
                self.actors.set(i, edited);
            },
            None => {},
        }
    }

    /// The family is reset for a new one: no actors, nobody selected.
    pub fn reset(&mut self)
        ensures
            final(self).wf(),
            final(self).actors_view() == Seq::<A>::empty(),
            final(self).selected_view() == None::<usize>,
    {
        self.actors = Vec::new();
        self.selected = None;
    }
}

/// The buttons under the family editor.
#[derive(Clone, Copy, PartialEq, Eq, Structural, Debug)]
pub enum FamilyMenuButton {
    Confirm,
    Cancel,
}

/// The buttons of the dialog that names the family.
#[derive(Clone, Copy, PartialEq, Eq, Structural, Debug)]
pub enum SaveDialogButton {
    Save,
    Cancel,
}

/// The buttons at the bottom of the dialog that places the saved family.
#[derive(Clone, Copy, PartialEq, Eq, Structural, Debug)]
pub enum PlaceDialogButton {
    Cancel,
    CreateNew,
}

impl FamilyMenuButton {
    pub fn label(self) -> (s: &'static str)
        ensures
            s@ == match self {
                FamilyMenuButton::Confirm => "Confirm"@,
                FamilyMenuButton::Cancel => "Cancel"@,
            },
    {
        match self {
            FamilyMenuButton::Confirm => "Confirm",
            FamilyMenuButton::Cancel => "Cancel",
        }
    }
}

impl SaveDialogButton {
    pub fn label(self) -> (s: &'static str)
        ensures
            s@ == match self {
                SaveDialogButton::Save => "Save"@,
                SaveDialogButton::Cancel => "Cancel"@,
            },
    {
        match self {
            SaveDialogButton::Save => "Save",
            SaveDialogButton::Cancel => "Cancel",
        }
    }
}

impl PlaceDialogButton {
    pub fn label(self) -> (s: &'static str)
        ensures
            s@ == match self {
                PlaceDialogButton::Cancel => "Cancel"@,
                PlaceDialogButton::CreateNew => "Create new"@,
            },
    {
        match self {
            PlaceDialogButton::Cancel => "Cancel",
            PlaceDialogButton::CreateNew => "Create new",
        }
    }
}

/// What the editor's buttons do.
#[derive(PartialEq, Eq, Debug)]
pub enum FamilyMenuAction {
    /// Every actor is named: the dialog that names the family opens, its
    /// name preset to the selected actor's last name.
    OpenSaveDialog(String),
    /// An actor lacks a name: the error is reported and the editor stays.
    Refuse(FamilyError),
    /// Back to the world.
    LeaveEditor,
}

/// The editor's buttons. `selected` is the actor shown in the personality
/// panel; confirming a family whose actors are all named needs one.
pub fn family_menu_action(
    button: FamilyMenuButton,
    actors: &[ActorNames],
    selected: Option<usize>,
) -> (a: FamilyMenuAction)
    requires
        button == FamilyMenuButton::Confirm && family_check(actors@, Ok(())) ==> (selected is Some
            && selected->0 < actors@.len()),
    ensures
        match button {
            FamilyMenuButton::Cancel => a == FamilyMenuAction::LeaveEditor,
            FamilyMenuButton::Confirm => match a {
                FamilyMenuAction::OpenSaveDialog(name) => family_check(actors@, Ok(()))
                    && name@ == actors@[selected->0 as int].last_name@,
                FamilyMenuAction::Refuse(e) => family_check(actors@, Err(e)),
                FamilyMenuAction::LeaveEditor => false,
            },
        },
{
    match button {
        FamilyMenuButton::Confirm => match check_family(actors) {
            Ok(()) => {
                let i = selected.unwrap();
                FamilyMenuAction::OpenSaveDialog(actors[i].last_name.clone())
            },
            Err(e) => FamilyMenuAction::Refuse(e),
        },
        FamilyMenuButton::Cancel => FamilyMenuAction::LeaveEditor,
    }
}

/// What a button of the dialog that names the family does.
#[derive(Clone, Copy, PartialEq, Eq, Structural, Debug)]
pub enum SaveDialogAction {
    /// The family is saved under the typed name and the placing dialog opens.
    SaveAndPlace,
    /// The dialog closes.
    Close,
    /// The save button is disabled while the name is empty: nothing happens.
    Ignore,
}

pub fn save_dialog_action(button: SaveDialogButton, family_name: &str) -> (a: SaveDialogAction)
    ensures
        a == match button {
            SaveDialogButton::Save => if family_name@.len() > 0 {
                SaveDialogAction::SaveAndPlace
            } else {
                SaveDialogAction::Ignore
            },
            SaveDialogButton::Cancel => SaveDialogAction::Close,
        },
{
    match button {
        SaveDialogButton::Save => if name_entered(family_name) {
            SaveDialogAction::SaveAndPlace
        } else {
            SaveDialogAction::Ignore
        },
        SaveDialogButton::Cancel => SaveDialogAction::Close,
    }
}

/// Whether a bottom button of the placing dialog starts a new family; the
/// dialog closes in either case.
pub fn place_dialog_resets(button: PlaceDialogButton) -> (reset: bool)
    ensures
        reset == (button == PlaceDialogButton::CreateNew),
{
    match button {
        PlaceDialogButton::CreateNew => true,
        PlaceDialogButton::Cancel => false,
    }
}

} // verus!
