//! Openings cut into a wall by the objects placed in it, kept sorted by their
//! distance to the wall's start point.
use vstd::prelude::*;

verus! {

/// An opening cut into a wall by an object.
///
/// `G` is the geometry of the cut (its position and outline), which only the
/// mesh builder reads.
pub struct Aperture<G> {
    /// The entity that cut this aperture.
    pub object_entity: u64,
    /// Distance to the beginning of the wall, as a key that orders like the
    /// distance itself. Used for sorting in [`Apertures`].
    pub distance: i32,
    /// `true` for a hole (like a window), `false` for a clipping (like a door or an arch).
    pub hole: bool,
    /// `true` if the aperture is caused by an object that has not been placed yet.
    pub placing_object: bool,
    /// Position and outline of the cut.
    pub geometry: G,
}

impl<G> Aperture<G> {
    /// An aperture that splits the wall's collision: a clipping of a placed object.
    pub open spec fn is_solid_cut(self) -> bool {
        !self.placing_object && !self.hole
    }
}

/// Strictly increasing distances: sorted, and no two apertures at the same distance.
pub open spec fn sorted_by_distance<G>(s: Seq<Aperture<G>>) -> bool {
    forall|i: int, j: int| 0 <= i < j < s.len() ==> s[i].distance < s[j].distance
}

/// The first index of an aperture cut by `entity`.
pub open spec fn entity_index<G>(s: Seq<Aperture<G>>, entity: u64) -> Option<int>
    decreases s.len(),
{
    if s.len() == 0 {
        None
    } else {
        match entity_index(s.drop_last(), entity) {
            Some(i) => Some(i),
            None => if s.last().object_entity == entity {
                Some(s.len() - 1)
            } else {
                None
            },
        }
    }
}

pub proof fn lemma_entity_index<G>(s: Seq<Aperture<G>>, entity: u64)
    ensures
        match entity_index(s, entity) {
            Some(i) => 0 <= i < s.len() && s[i].object_entity == entity && forall|j: int|
                0 <= j < i ==> s[j].object_entity != entity,
            None => forall|j: int| 0 <= j < s.len() ==> s[j].object_entity != entity,
        },
    decreases s.len(),
{
    if s.len() > 0 {
        let rest = s.drop_last();
        lemma_entity_index(rest, entity);
        assert forall|j: int| 0 <= j < rest.len() implies rest[j] == s[j] by {}
    }
}

/// Dynamically updated apertures of a wall, sorted by distance to the wall's start point.
pub struct Apertures<G> {
    apertures: Vec<Aperture<G>>,
    /// Set when a clipping of a placed object was added or removed, so the
    /// wall's collision has to be rebuilt.
    collision_outdated: bool,
}

impl<G> Apertures<G> {
    pub closed spec fn view_seq(self) -> Seq<Aperture<G>> {
        self.apertures@
    }

    pub closed spec fn outdated(self) -> bool {
        self.collision_outdated
    }

    /// Returns `true` if the wall's collision has to be rebuilt.
    pub fn collision_outdated(&self) -> (b: bool)
        ensures
            b == self.outdated(),
    {
        self.collision_outdated
    }

    /// Records that the wall's collision was rebuilt.
    pub fn set_collision_updated(&mut self)
        ensures
            !final(self).outdated(),
            final(self).view_seq() == old(self).view_seq(),
    {
        self.collision_outdated = false;
    }

    /// The apertures are sorted by distance, without two at the same distance.
    pub open spec fn wf(self) -> bool {
        sorted_by_distance(self.view_seq())
    }

    /// No apertures, collision up to date.
    pub fn new() -> (a: Self)
        ensures
            a.view_seq() == Seq::<Aperture<G>>::empty(),
            !a.outdated(),
            a.wf(),
    {
        Apertures { apertures: Vec::new(), collision_outdated: false }
    }

    /// All apertures, by increasing distance.
    pub fn iter(&self) -> (s: &[Aperture<G>])
        ensures
            s@ == self.view_seq(),
    {
        self.apertures.as_slice()
    }

    /// Where an aperture at `distance` goes: `Ok` with the index of an aperture
    /// at that distance, else `Err` with the number of apertures before it.
    pub fn search(&self, distance: i32) -> (r: Result<usize, usize>)
        requires
            self.wf(),
        ensures
            match r {
                Ok(i) => i < self.view_seq().len() && self.view_seq()[i as int].distance == distance,
                Err(i) => i <= self.view_seq().len() && (forall|j: int|
                    0 <= j < i ==> self.view_seq()[j].distance < distance) && (forall|j: int|
                    i <= j < self.view_seq().len() ==> self.view_seq()[j].distance > distance),
            },
    {
        let mut low: usize = 0;
        let mut high: usize = self.apertures.len();
        while low < high
            invariant
                low <= high <= self.view_seq().len(),
                self.view_seq() == self.apertures@,
                sorted_by_distance(self.view_seq()),
                forall|j: int| 0 <= j < low ==> self.view_seq()[j].distance < distance,
                forall|j: int| high <= j < self.view_seq().len() ==> self.view_seq()[j].distance > distance,
            decreases high - low,
        {
            let mid = low + (high - low) / 2;
            let d = self.apertures[mid].distance;
            if d < distance {
                low = mid + 1;
            } else if d > distance {
                high = mid;
            } else {
                return Ok(mid);
            }
        }
        Err(low)
    }

    /// Inserts a new aperture in sorted order. There must be no aperture at
    /// the same distance already.
    pub fn insert(&mut self, aperture: Aperture<G>)
        requires
            old(self).wf(),
            forall|j: int|
                0 <= j < old(self).view_seq().len() ==> old(self).view_seq()[j].distance
                    != aperture.distance,
        ensures
            final(self).wf(),
            exists|i: int|
                0 <= i <= old(self).view_seq().len() && final(self).view_seq() == old(
                    self,
                ).view_seq().insert(i, aperture) && (forall|j: int|
                    0 <= j < i ==> old(self).view_seq()[j].distance < aperture.distance) && (forall|j: int|
                    i <= j < old(self).view_seq().len() ==> old(self).view_seq()[j].distance
                        > aperture.distance),
            final(self).outdated() == (old(self).outdated() || aperture.is_solid_cut()),
    {
        let index = match self.search(aperture.distance) {
            Ok(_) => {
                assert(false);
                0
            },
            Err(index) => index,
        };
        if !aperture.placing_object && !aperture.hole {
            self.collision_outdated = true;
        }
        let ghost prev = self.apertures@;
        self.apertures.insert(index, aperture);
        assert(self.apertures@ == prev.insert(index as int, aperture));
        assert forall|i: int, j: int| 0 <= i < j < self.apertures@.len() implies self.apertures@[i].distance
            < self.apertures@[j].distance by {
            let s = self.apertures@;
            assert(i < index ==> s[i] == prev[i]);
            assert(i > index ==> s[i] == prev[i - 1]);
            assert(j < index ==> s[j] == prev[j]);
            assert(j > index ==> s[j] == prev[j - 1]);
        }
    }

    /// Returns the index of the aperture cut by `entity`.
    pub fn position(&self, entity: u64) -> (r: Option<usize>)
        ensures
            match r {
                Some(i) => entity_index(self.view_seq(), entity) == Some(i as int),
                None => entity_index(self.view_seq(), entity) is None,
            },
    {
        proof {
            lemma_entity_index(self.view_seq(), entity);
        }
        let mut i: usize = 0;
        while i < self.apertures.len()
            invariant
                i <= self.view_seq().len(),
                self.view_seq() == self.apertures@,
                forall|j: int| 0 <= j < i ==> self.view_seq()[j].object_entity != entity,
                match entity_index(self.view_seq(), entity) {
                    Some(k) => 0 <= k < self.view_seq().len() && self.view_seq()[k].object_entity
                        == entity && forall|j: int| 0 <= j < k ==> self.view_seq()[j].object_entity != entity,
                    None => forall|j: int| 0 <= j < self.view_seq().len() ==> self.view_seq()[j].object_entity != entity,
                },
            decreases self.view_seq().len() - i,
        {
            if self.apertures[i].object_entity == entity {
                return Some(i);
            }
            i = i + 1;
        }
        None
    }

    /// Removes and returns the aperture at `index`.
    pub fn remove(&mut self, index: usize) -> (aperture: Aperture<G>)
        requires
            index < old(self).view_seq().len(),
        ensures
            aperture == old(self).view_seq()[index as int],
            final(self).view_seq() == old(self).view_seq().remove(index as int),
            old(self).wf() ==> final(self).wf(),
            final(self).outdated() == (old(self).outdated() || aperture.is_solid_cut()),
    {
        let ghost prev = self.apertures@;
        let aperture = self.apertures.remove(index);
        if !aperture.placing_object && !aperture.hole {
            self.collision_outdated = true;
        }
        assert forall|i: int, j: int| sorted_by_distance(prev) && 0 <= i < j < self.apertures@.len()
            implies self.apertures@[i].distance < self.apertures@[j].distance by {
            let s = self.apertures@;
            assert(s[i] == if i < index { prev[i] } else { prev[i + 1] });
            assert(s[j] == if j < index { prev[j] } else { prev[j + 1] });
        }
        aperture
    }

    /// Removes the aperture cut by `entity`, if there is one.
    pub fn remove_existing(&mut self, entity: u64) -> (removed: Option<Aperture<G>>)
        ensures
            match entity_index(old(self).view_seq(), entity) {
                Some(i) => removed == Some(old(self).view_seq()[i]) && final(self).view_seq()
                    == old(self).view_seq().remove(i) && final(self).outdated() == (old(
                    self,
                ).outdated() || old(self).view_seq()[i].is_solid_cut()),
                None => removed is None && final(self).view_seq() == old(self).view_seq()
                    && final(self).outdated() == old(self).outdated(),
            },
            old(self).wf() ==> final(self).wf(),
    {
        proof {
            lemma_entity_index(self.view_seq(), entity);
        }
        match self.position(entity) {
            Some(index) => Some(self.remove(index)),
            None => None,
        }
    }
}

/// How the apertures change when an object mounted in walls moves.
#[derive(Clone, Copy, PartialEq, Eq, Structural, Debug)]
pub enum MountChange {
    /// The object stays in the same wall: only its translation changes.
    Moved { wall: u64 },
    /// The object went from one wall to another.
    Transferred { from: u64, to: u64 },
    /// The object entered a wall.
    Added { wall: u64 },
    /// The object left its wall.
    Removed { from: u64 },
    /// The object is in no wall and was in none.
    Unchanged,
}

/// Decides what happens to the apertures of an object that moved: `found` is
/// the wall that now contains it, `current` the wall whose aperture it had.
/// Returns the change and the object's wall afterwards, which is `found`.
pub fn mount_change(found: Option<u64>, current: Option<u64>) -> (r: (MountChange, Option<u64>))
    ensures
        r.1 == found,
        r.0 == match (found, current) {
            (Some(w), Some(c)) => if c == w {
                MountChange::Moved { wall: w }
            } else {
                MountChange::Transferred { from: c, to: w }
            },
            (Some(w), None) => MountChange::Added { wall: w },
            (None, Some(c)) => MountChange::Removed { from: c },
            (None, None) => MountChange::Unchanged,
        },
{
    match found {
        Some(wall_entity) => match current {
            Some(current_entity) => {
                if current_entity == wall_entity {
                    (MountChange::Moved { wall: wall_entity }, Some(wall_entity))
                } else {
                    (MountChange::Transferred { from: current_entity, to: wall_entity }, Some(wall_entity))
                }
            },
            None => (MountChange::Added { wall: wall_entity }, Some(wall_entity)),
        },
        None => match current {
            Some(surrounding_entity) => (MountChange::Removed { from: surrounding_entity }, None),
            None => (MountChange::Unchanged, None),
        },
    }
}

} // verus!
