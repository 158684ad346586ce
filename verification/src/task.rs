//! Tasks of actors: which body parts a task occupies, which queued task is
//! activated next, and how requests and cancellations are decided.
use vstd::prelude::*;

verus! {

/// The known group bits: left hand, right hand and legs.
pub const ALL_GROUP_BITS: u8 = 0b0000_0111;

/// A set of body parts that a task occupies.
#[derive(Clone, Copy, PartialEq, Eq, Structural, Debug)]
pub struct TaskGroups {
    bits: u8,
}

impl TaskGroups {
    pub closed spec fn spec_bits(self) -> u8 {
        self.bits
    }

    /// Only known group bits are set.
    pub open spec fn valid(self) -> bool {
        self.spec_bits() & !ALL_GROUP_BITS == 0
    }

    pub fn empty() -> (g: Self)
        ensures
            g.spec_bits() == 0,
    {
        TaskGroups { bits: 0 }
    }

    pub fn left_hand() -> (g: Self)
        ensures
            g.spec_bits() == 0b0000_0001,
    {
        TaskGroups { bits: 0b0000_0001 }
    }

    pub fn right_hand() -> (g: Self)
        ensures
            g.spec_bits() == 0b0000_0010,
    {
        TaskGroups { bits: 0b0000_0010 }
    }

    /// Both hands: the left hand and the right hand.
    pub fn both_hands() -> (g: Self)
        ensures
            g.spec_bits() == 0b0000_0011,
    {
        assert(0b0000_0001u8 | 0b0000_0010u8 == 0b0000_0011u8) by (bit_vector);
        TaskGroups { bits: 0b0000_0001 | 0b0000_0010 }
    }

    pub fn legs() -> (g: Self)
        ensures
            g.spec_bits() == 0b0000_0100,
    {
        TaskGroups { bits: 0b0000_0100 }
    }

    /// Every known group.
    pub fn all() -> (g: Self)
        ensures
            g.spec_bits() == ALL_GROUP_BITS,
    {
        TaskGroups { bits: ALL_GROUP_BITS }
    }

    pub fn bits(&self) -> (b: u8)
        ensures
            b == self.spec_bits(),
    {
        self.bits
    }

    /// The groups of `bits`, or `None` if it holds an unknown bit.
    pub fn from_bits(bits: u8) -> (g: Option<Self>)
        ensures
            match g {
                Some(g) => bits & !ALL_GROUP_BITS == 0 && g.spec_bits() == bits,
                None => bits & !ALL_GROUP_BITS != 0,
            },
    {
        if bits & !ALL_GROUP_BITS == 0 {
            Some(TaskGroups { bits })
        } else {
            None
        }
    }

    /// The groups of `bits`, unknown bits dropped.
    pub fn from_bits_truncate(bits: u8) -> (g: Self)
        ensures
            g.spec_bits() == bits & ALL_GROUP_BITS,
            g.valid(),
    {
        let g = TaskGroups { bits: bits & ALL_GROUP_BITS };
        assert((bits & ALL_GROUP_BITS) & !ALL_GROUP_BITS == 0) by (bit_vector);
        g
    }

    pub fn is_empty(&self) -> (b: bool)
        ensures
            b == (self.spec_bits() == 0),
    {
        self.bits == 0
    }

    /// Returns `true` if the two sets share a group.
    pub fn intersects(&self, other: TaskGroups) -> (b: bool)
        ensures
            b == (self.spec_bits() & other.spec_bits() != 0),
    {
        self.bits & other.bits != 0
    }

    /// Returns `true` if every group of `other` is in `self`.
    pub fn contains(&self, other: TaskGroups) -> (b: bool)
        ensures
            b == (self.spec_bits() & other.spec_bits() == other.spec_bits()),
    {
        self.bits & other.bits == other.bits
    }

    /// The groups in both sets (the bitwise `&` of the flag bits).
    pub fn intersection(&self, other: TaskGroups) -> (g: TaskGroups)
        ensures
            g.spec_bits() == self.spec_bits() & other.spec_bits(),
    {
        TaskGroups { bits: self.bits & other.bits }
    }

    /// The groups in either set (the bitwise `|` of the flag bits).
    pub fn union(&self, other: TaskGroups) -> (g: TaskGroups)
        ensures
            g.spec_bits() == self.spec_bits() | other.spec_bits(),
    {
        TaskGroups { bits: self.bits | other.bits }
    }
}

impl Default for TaskGroups {
    fn default() -> (g: Self)
        ensures
            g.spec_bits() == 0,
    {
        TaskGroups { bits: 0 }
    }
}

/// Two sets share a group exactly when their intersection is not empty, and
/// sharing is symmetric.
pub proof fn lemma_intersects_symmetric(a: TaskGroups, b: TaskGroups)
    ensures
        (a.spec_bits() & b.spec_bits() != 0) == (b.spec_bits() & a.spec_bits() != 0),
        (a.spec_bits() & b.spec_bits()) == (b.spec_bits() & a.spec_bits()),
{
    let x = a.spec_bits();
    let y = b.spec_bits();
    assert(x & y == y & x) by (bit_vector);
}

/// Both hands are the left hand and the right hand together, and the legs
/// share no group with them.
pub proof fn lemma_group_constants()
    ensures
        0b0000_0001u8 | 0b0000_0010u8 == 0b0000_0011u8,
        0b0000_0011u8 & 0b0000_0100u8 == 0u8,
{
    assert(0b0000_0001u8 | 0b0000_0010u8 == 0b0000_0011u8) by (bit_vector);
    assert(0b0000_0011u8 & 0b0000_0100u8 == 0u8) by (bit_vector);
}

/// The groups held by every active task: the intersection of their groups,
/// or no group when no task is active.
pub open spec fn common_groups(active: Seq<TaskGroups>) -> u8
    decreases active.len(),
{
    if active.len() == 0 {
        0
    } else if active.len() == 1 {
        active[0].spec_bits()
    } else {
        common_groups(active.drop_last()) & active.last().spec_bits()
    }
}

/// The groups in use are exactly those held by every active task: they are
/// within the groups of each active task, and any groups within the groups of
/// every active task are within them.
pub proof fn lemma_common_groups_meet(active: Seq<TaskGroups>)
    requires
        active.len() > 0,
    ensures
        forall|i: int| 0 <= i < active.len() ==> common_groups(active) & !(#[trigger] active[i].spec_bits()) == 0,
        forall|g: u8|
            (forall|i: int| 0 <= i < active.len() ==> g & !(#[trigger] active[i].spec_bits()) == 0) ==> g
                & !common_groups(active) == 0,
    decreases active.len(),
{
    if active.len() == 1 {
        let a = active[0].spec_bits();
        assert(a & !a == 0) by (bit_vector);
    } else {
        let rest = active.drop_last();
        lemma_common_groups_meet(rest);
        let c = common_groups(rest);
        let b = active.last().spec_bits();
        assert((c & b) & !b == 0) by (bit_vector);
        assert forall|i: int| 0 <= i < active.len() implies common_groups(active) & !(#[trigger] active[i].spec_bits()) == 0 by {
            if i < active.len() - 1 {
                let a = active[i].spec_bits();
                assert(rest[i] == active[i]);
                assert(c & !a == 0);
                assert(c & !a == 0 ==> (c & b) & !a == 0) by (bit_vector);
            }
        }
        assert forall|g: u8|
            (forall|i: int| 0 <= i < active.len() ==> g & !(#[trigger] active[i].spec_bits()) == 0) implies g
                & !common_groups(active) == 0 by {
            assert forall|i: int| 0 <= i < rest.len() implies g & !(#[trigger] rest[i].spec_bits()) == 0 by {
                assert(rest[i] == active[i]);
            }
            assert(g & !c == 0);
            assert(g & !active[active.len() - 1].spec_bits() == 0);
            assert(g & !c == 0 && g & !b == 0 ==> g & !(c & b) == 0) by (bit_vector);
        }
    }
}

/// Computes [`common_groups`] over the groups of the active tasks of an actor.
pub fn current_groups(active: &[TaskGroups]) -> (g: TaskGroups)
    ensures
        g.spec_bits() == common_groups(active@),
{
    if active.len() == 0 {
        return TaskGroups::default();
    }
    let mut acc = active[0];
    let mut i: usize = 1;
    while i < active.len()
        invariant
            1 <= i <= active@.len(),
            acc.spec_bits() == common_groups(active@.take(i as int)),
        decreases active@.len() - i,
    {
        proof {
            assert(active@.take(i + 1).drop_last() =~= active@.take(i as int));
        }
        acc = acc.intersection(active[i]);
        i = i + 1;
    }
    assert(active@.take(active@.len() as int) =~= active@);
    acc
}

/// The first queued task whose groups are free of the groups in use.
pub fn first_free(queued: &[TaskGroups], current: TaskGroups) -> (r: Option<usize>)
    ensures
        match r {
            Some(i) => i < queued@.len() && queued@[i as int].spec_bits() & current.spec_bits() == 0
                && forall|j: int| 0 <= j < i ==> queued@[j].spec_bits() & current.spec_bits() != 0,
            None => forall|j: int|
                0 <= j < queued@.len() ==> queued@[j].spec_bits() & current.spec_bits() != 0,
        },
{
    let mut i: usize = 0;
    while i < queued.len()
        invariant
            i <= queued@.len(),
            forall|j: int| 0 <= j < i ==> queued@[j].spec_bits() & current.spec_bits() != 0,
        decreases queued@.len() - i,
    {
        if !queued[i].intersects(current) {
            return Some(i);
        }
        i = i + 1;
    }
    None
}

/// Which queued task of an actor becomes active: the first one whose groups
/// are free of the groups common to the active tasks.
pub fn next_activation(active: &[TaskGroups], queued: &[TaskGroups]) -> (r: Option<usize>)
    ensures
        match r {
            Some(i) => i < queued@.len() && queued@[i as int].spec_bits() & common_groups(active@)
                == 0 && forall|j: int|
                0 <= j < i ==> queued@[j].spec_bits() & common_groups(active@) != 0,
            None => forall|j: int|
                0 <= j < queued@.len() ==> queued@[j].spec_bits() & common_groups(active@) != 0,
        },
{
    let current = current_groups(active);
    first_free(queued, current)
}

/// An actor with no active task activates its first queued task.
pub proof fn lemma_idle_actor_activates_first(queued: Seq<TaskGroups>)
    requires
        queued.len() > 0,
    ensures
        queued[0].spec_bits() & common_groups(Seq::<TaskGroups>::empty()) == 0,
{
    let b = queued[0].spec_bits();
    assert(b & 0u8 == 0u8) by (bit_vector);
}

/// What a cancel request does to the task it names.
#[derive(Clone, Copy, PartialEq, Eq, Structural, Debug)]
pub enum CancelAction {
    /// A queued task is simply despawned.
    Despawn,
    /// An active task is marked as cancelled and finishes on its own.
    MarkCancelled,
    /// The entity is not a task: the request is reported as an error.
    NotATask,
}

pub fn cancel_action(queued: bool, active: bool) -> (a: CancelAction)
    ensures
        a == if queued {
            CancelAction::Despawn
        } else if active {
            CancelAction::MarkCancelled
        } else {
            CancelAction::NotATask
        },
{
    if queued {
        CancelAction::Despawn
    } else if active {
        CancelAction::MarkCancelled
    } else {
        CancelAction::NotATask
    }
}

/// The registered task component types, by type key.
pub struct TaskComponents {
    types: Vec<u64>,
}

impl TaskComponents {
    pub closed spec fn view_seq(self) -> Seq<u64> {
        self.types@
    }

    pub fn new() -> (c: Self)
        ensures
            c.view_seq() == Seq::<u64>::empty(),
    {
        TaskComponents { types: Vec::new() }
    }

    /// Registers a task component type.
    pub fn register(&mut self, type_key: u64)
        ensures
            final(self).view_seq() == old(self).view_seq().push(type_key),
    {
        self.types.push(type_key);
    }

    pub fn contains(&self, type_key: u64) -> (b: bool)
        ensures
            b == self.view_seq().contains(type_key),
    {
        let mut i: usize = 0;
        while i < self.types.len()
            invariant
                i <= self.types@.len(),
                forall|j: int| 0 <= j < i ==> self.types@[j] != type_key,
            decreases self.types@.len() - i,
        {
            if self.types[i] == type_key {
                assert(self.types@[i as int] == type_key);
                return true;
            }
            i = i + 1;
        }
        false
    }

    /// The task type of a listed task entity: the first registered type, in
    /// registration order, among the component types the entity holds.
    pub fn first_contained(&self, entity_types: &[u64]) -> (r: Option<u64>)
        ensures
            match r {
                Some(k) => exists|i: int|
                    0 <= i < self.view_seq().len() && self.view_seq()[i] == k
                        && entity_types@.contains(k) && forall|j: int|
                        0 <= j < i ==> !entity_types@.contains(#[trigger] self.view_seq()[j]),
                None => forall|j: int|
                    0 <= j < self.view_seq().len() ==> !entity_types@.contains(
                        #[trigger] self.view_seq()[j],
                    ),
            },
    {
        let mut i: usize = 0;
        while i < self.types.len()
            invariant
                i <= self.types@.len(),
                forall|j: int| 0 <= j < i ==> !entity_types@.contains(#[trigger] self.types@[j]),
            decreases self.types@.len() - i,
        {
            let key = self.types[i];
            let mut k: usize = 0;
            while k < entity_types.len()
                invariant
                    k <= entity_types@.len(),
                    i < self.types@.len(),
                    key == self.types@[i as int],
                    forall|j: int| 0 <= j < i ==> !entity_types@.contains(#[trigger] self.types@[j]),
                    forall|m: int| 0 <= m < k ==> entity_types@[m] != key,
                decreases entity_types@.len() - k,
            {
                if entity_types[k] == key {
                    assert(entity_types@[k as int] == key);
                    assert(entity_types@.contains(key));
                    assert(self.view_seq()[i as int] == key);
                    return Some(key);
                }
                k = k + 1;
            }
            i = i + 1;
        }
        None
    }
}

/// Why a task request is refused.
#[derive(Clone, Copy, PartialEq, Eq, Structural, Debug)]
pub enum RequestError {
    /// The requesting entity is not an actor.
    NotAnActor,
    /// The requested type is not registered.
    NotRegistered,
    /// The requested type is registered but is not a task.
    NotATask,
}

/// Decides a task request: the entity must be an actor, and the requested
/// type must be registered (`registration` holds its type key) as a task.
/// On success the task is queued under the actor.
pub fn check_request(
    is_actor: bool,
    registration: Option<u64>,
    task_components: &TaskComponents,
) -> (r: Result<u64, RequestError>)
    ensures
        r == if !is_actor {
            Err(RequestError::NotAnActor)
        } else {
            match registration {
                None => Err(RequestError::NotRegistered),
                Some(key) => if task_components.view_seq().contains(key) {
                    Ok(key)
                } else {
                    Err(RequestError::NotATask)
                },
            }
        },
{
    if !is_actor {
        return Err(RequestError::NotAnActor);
    }
    match registration {
        None => Err(RequestError::NotRegistered),
        Some(key) => {
            if task_components.contains(key) {
                Ok(key)
            } else {
                Err(RequestError::NotATask)
            }
        },
    }
}

/// Where the list of possible tasks goes when the player confirms: onto the
/// hovered entity, taken from the entity that had it. Returns the entity to
/// take it from and the entity to put it on; nothing moves when nothing is hovered.
pub fn task_list_move(hovered: Option<u64>, previous: Option<u64>) -> (r: (Option<u64>, Option<u64>))
    ensures
        r == match hovered {
            Some(h) => (previous, Some(h)),
            None => (None, None),
        },
{
    match hovered {
        Some(h) => (previous, Some(h)),
        None => (None, None),
    }
}

/// The state of a task of the active actor.
#[derive(Clone, Copy, PartialEq, Eq, Structural, Debug)]
pub enum TaskState {
    Queued,
    Active,
    Cancelled,
}

/// What the task panel does with the button of a task whose state changed.
#[derive(Clone, Copy, PartialEq, Eq, Structural, Debug)]
pub enum TaskButtonAction {
    /// A new button in the queued tasks node.
    SpawnQueued,
    /// The task's button moves to the active tasks node.
    MoveToActive,
    /// Nothing: cancelled tasks keep their button until they are removed.
    Keep,
}

pub fn task_button_action(state: TaskState) -> (a: TaskButtonAction)
    ensures
        a == match state {
            TaskState::Queued => TaskButtonAction::SpawnQueued,
            TaskState::Active => TaskButtonAction::MoveToActive,
            TaskState::Cancelled => TaskButtonAction::Keep,
        },
{
    match state {
        TaskState::Queued => TaskButtonAction::SpawnQueued,
        TaskState::Active => TaskButtonAction::MoveToActive,
        TaskState::Cancelled => TaskButtonAction::Keep,
    }
}

/// How many invisible placeholders keep a row of `count` icons as wide as
/// `max` icons.
pub fn placeholder_count(count: usize, max: usize) -> (n: usize)
    ensures
        n == if count < max { max - count } else { 0 },
{
    if count < max {
        max - count
    } else {
        0
    }
}

/// The most active tasks shown for an actor.
pub const MAX_ACTIVE_TASKS: usize = 3;

/// The most members shown for a family.
pub const MAX_FAMILY_SIZE: usize = 4;

/// Fields of a serialized task request, in order.
#[derive(Clone, Copy, PartialEq, Eq, Structural, Debug)]
pub enum TaskRequestField {
    Entity,
    Task,
}

impl TaskRequestField {
    /// The field's position in the serialized struct.
    pub fn index(self) -> (i: usize)
        ensures
            i == match self {
                TaskRequestField::Entity => 0usize,
                TaskRequestField::Task => 1usize,
            },
    {
        match self {
            TaskRequestField::Entity => 0,
            TaskRequestField::Task => 1,
        }
    }

    /// The field's name, in snake case.
    pub fn name(self) -> (s: &'static str)
        ensures
            s@ == match self {
                TaskRequestField::Entity => "entity"@,
                TaskRequestField::Task => "task"@,
            },
    {
        match self {
            TaskRequestField::Entity => "entity",
            TaskRequestField::Task => "task",
        }
    }

    /// The number of fields.
    pub fn count() -> (n: usize)
        ensures
            n == 2,
    {
        2
    }
}

} // verus!
