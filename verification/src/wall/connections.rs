//! Precalculated connections between the walls of a lot.
//!
//! Every wall keeps, for each of its two end points, the walls that meet it
//! there. A point is given by a key, and two points are the same exactly when
//! their keys are equal.
use vstd::prelude::*;

verus! {

/// One of the two end points of a wall.
#[derive(Clone, Copy, PartialEq, Eq, Structural, Debug)]
pub enum PointKind {
    Start,
    End,
}

/// A wall segment from `start` to `end`.
#[derive(Clone, Copy, PartialEq, Eq, Structural, Debug)]
pub struct Wall {
    pub start: u64,
    pub end: u64,
}

impl Wall {
    /// The same segment, walked the other way.
    pub fn inverse(&self) -> (w: Wall)
        ensures
            w.start == self.end,
            w.end == self.start,
    {
        Wall { start: self.end, end: self.start }
    }

    /// A wall whose two end points coincide has zero length.
    pub open spec fn is_point(self) -> bool {
        self.start == self.end
    }
}

/// Where `wall` meets `other`: the end point of `wall`, then the end point of
/// `other`. The cases are tried in this order, so two walls meet at most once.
pub open spec fn link(wall: Wall, other: Wall) -> Option<(PointKind, PointKind)> {
    if wall.start == other.start {
        Some((PointKind::Start, PointKind::Start))
    } else if wall.start == other.end {
        Some((PointKind::Start, PointKind::End))
    } else if wall.end == other.end {
        Some((PointKind::End, PointKind::End))
    } else if wall.end == other.start {
        Some((PointKind::End, PointKind::Start))
    } else {
        None
    }
}

/// Computes [`link`].
pub fn meeting_points(wall: Wall, other: Wall) -> (r: Option<(PointKind, PointKind)>)
    ensures
        r == link(wall, other),
{
    if wall.start == other.start {
        Some((PointKind::Start, PointKind::Start))
    } else if wall.start == other.end {
        Some((PointKind::Start, PointKind::End))
    } else if wall.end == other.end {
        Some((PointKind::End, PointKind::End))
    } else if wall.end == other.start {
        Some((PointKind::End, PointKind::Start))
    } else {
        None
    }
}

/// A wall that meets another wall at one of its end points.
#[derive(Clone, Copy, PartialEq, Eq, Structural, Debug)]
pub struct WallConnection {
    /// The other wall's entity.
    pub wall_entity: u64,
    /// The other wall's end point at which they meet.
    pub point_kind: PointKind,
    /// The other wall's segment.
    pub wall: Wall,
}

/// The connections of a wall, seen as two sequences.
pub struct ConnView {
    pub start: Seq<WallConnection>,
    pub end: Seq<WallConnection>,
}

impl ConnView {
    pub open spec fn empty() -> ConnView {
        ConnView { start: Seq::empty(), end: Seq::empty() }
    }

    pub open spec fn at(self, kind: PointKind) -> Seq<WallConnection> {
        match kind {
            PointKind::Start => self.start,
            PointKind::End => self.end,
        }
    }

    pub open spec fn push(self, kind: PointKind, c: WallConnection) -> ConnView {
        match kind {
            PointKind::Start => ConnView { start: self.start.push(c), end: self.end },
            PointKind::End => ConnView { start: self.start, end: self.end.push(c) },
        }
    }

    /// Where the connection to `entity` is: first in the start list, else first
    /// in the end list.
    pub open spec fn position(self, entity: u64) -> Option<(PointKind, int)> {
        match first_index(self.start, entity) {
            Some(i) => Some((PointKind::Start, i)),
            None => match first_index(self.end, entity) {
                Some(i) => Some((PointKind::End, i)),
                None => None,
            },
        }
    }

    pub open spec fn remove(self, kind: PointKind, index: int) -> ConnView {
        match kind {
            PointKind::Start => ConnView { start: self.start.remove(index), end: self.end },
            PointKind::End => ConnView { start: self.start, end: self.end.remove(index) },
        }
    }

    /// Without the connection to `entity` that [`ConnView::position`] finds.
    pub open spec fn without(self, entity: u64) -> ConnView {
        match self.position(entity) {
            Some((kind, i)) => self.remove(kind, i),
            None => self,
        }
    }

    /// The entities connected at the start point, then those at the end point.
    pub open spec fn entities(self) -> Seq<u64> {
        (self.start + self.end).map_values(|c: WallConnection| c.wall_entity)
    }
}

/// The first index of a connection to `entity` in `s`.
pub open spec fn first_index(s: Seq<WallConnection>, entity: u64) -> Option<int>
    decreases s.len(),
{
    if s.len() == 0 {
        None
    } else {
        match first_index(s.drop_last(), entity) {
            Some(i) => Some(i),
            None => if s.last().wall_entity == entity {
                Some(s.len() - 1)
            } else {
                None
            },
        }
    }
}

pub proof fn lemma_first_index(s: Seq<WallConnection>, entity: u64)
    ensures
        match first_index(s, entity) {
            Some(i) => 0 <= i < s.len() && s[i].wall_entity == entity && forall|j: int|
                0 <= j < i ==> s[j].wall_entity != entity,
            None => forall|j: int| 0 <= j < s.len() ==> s[j].wall_entity != entity,
        },
    decreases s.len(),
{
    if s.len() > 0 {
        let rest = s.drop_last();
        lemma_first_index(rest, entity);
        assert forall|j: int| 0 <= j < rest.len() implies rest[j] == s[j] by {}
    }
}

fn find_entity(v: &Vec<WallConnection>, entity: u64) -> (r: Option<usize>)
    ensures
        match r {
            Some(i) => first_index(v@, entity) == Some(i as int),
            None => first_index(v@, entity) is None,
        },
{
    proof {
        lemma_first_index(v@, entity);
    }
    let mut i: usize = 0;
    while i < v.len()
        invariant
            i <= v@.len(),
            forall|j: int| 0 <= j < i ==> v@[j].wall_entity != entity,
            match first_index(v@, entity) {
                Some(k) => 0 <= k < v@.len() && v@[k].wall_entity == entity && forall|j: int|
                    0 <= j < k ==> v@[j].wall_entity != entity,
                None => forall|j: int| 0 <= j < v@.len() ==> v@[j].wall_entity != entity,
            },
        decreases v@.len() - i,
    {
        if v[i].wall_entity == entity {
            return Some(i);
        }
        i = i + 1;
    }
    None
}

/// Dynamically updated connections of a wall, for each of its end points.
pub struct WallConnections {
    start: Vec<WallConnection>,
    end: Vec<WallConnection>,
}

impl View for WallConnections {
    type V = ConnView;

    closed spec fn view(&self) -> ConnView {
        ConnView { start: self.start@, end: self.end@ }
    }
}

impl Default for WallConnections {
    fn default() -> (c: Self)
        ensures
            c@ == ConnView::empty(),
    {
        WallConnections { start: Vec::new(), end: Vec::new() }
    }
}

impl WallConnections {
    /// The connections at one end point, in the order they were made.
    pub fn at(&self, kind: PointKind) -> (s: &[WallConnection])
        ensures
            s@ == self@.at(kind),
    {
        match kind {
            PointKind::Start => self.start.as_slice(),
            PointKind::End => self.end.as_slice(),
        }
    }

    /// Returns the point kind and the index at which `entity` is connected.
    ///
    /// Used for [`WallConnections::remove`] later.
    pub fn position(&self, entity: u64) -> (r: Option<(PointKind, usize)>)
        ensures
            match r {
                Some((kind, i)) => self@.position(entity) == Some((kind, i as int)),
                None => self@.position(entity) is None,
            },
    {
        match find_entity(&self.start, entity) {
            Some(index) => Some((PointKind::Start, index)),
            None => match find_entity(&self.end, entity) {
                Some(index) => Some((PointKind::End, index)),
                None => None,
            },
        }
    }

    /// Removes the connection at `index` of one end point.
    pub fn remove(&mut self, point_kind: PointKind, index: usize)
        requires
            index < old(self)@.at(point_kind).len(),
        ensures
            final(self)@ == old(self)@.remove(point_kind, index as int),
    {
        match point_kind {
            PointKind::Start => {
                self.start.remove(index);
            },
            PointKind::End => {
                self.end.remove(index);
            },
        }
    }

    /// Adds a connection at one end point.
    pub fn push(&mut self, point_kind: PointKind, connection: WallConnection)
        ensures
            final(self)@ == old(self)@.push(point_kind, connection),
    {
        match point_kind {
            PointKind::Start => self.start.push(connection),
            PointKind::End => self.end.push(connection),
        }
    }

    /// Empties both end points and returns the entities that were connected,
    /// those at the start point first.
    pub fn drain(&mut self) -> (entities: Vec<u64>)
        ensures
            final(self)@ == ConnView::empty(),
            entities@ == old(self)@.entities(),
    {
        let mut entities: Vec<u64> = Vec::new();
        let ghost all = self.start@ + self.end@;
        let mut i: usize = 0;
        while i < self.start.len()
            invariant
                i <= self.start@.len(),
                all == self.start@ + self.end@,
                entities@ == all.take(i as int).map_values(|c: WallConnection| c.wall_entity),
            decreases self.start@.len() - i,
        {
            entities.push(self.start[i].wall_entity);
            i = i + 1;
            assert(all.take(i as int) == all.take(i - 1).push(all[i - 1]));
        }
        let mut j: usize = 0;
        while j < self.end.len()
            invariant
                j <= self.end@.len(),
                all == self.start@ + self.end@,
                entities@ == all.take(self.start@.len() + j).map_values(
                    |c: WallConnection| c.wall_entity,
                ),
            decreases self.end@.len() - j,
        {
            entities.push(self.end[j].wall_entity);
            j = j + 1;
            assert(all.take(self.start@.len() + j) == all.take(self.start@.len() + j - 1).push(
                all[self.start@.len() + j - 1],
            ));
        }
        assert(all.take(all.len() as int) == all);
        self.start.clear();
        self.end.clear();
        entities
    }
}

} // verus!
