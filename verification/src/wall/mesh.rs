//! Index buffers of the wall meshes and colliders, and the choices that shape them.
use vstd::prelude::*;
use crate::wall::apertures::Aperture;
use crate::wall::connections::{PointKind, Wall, WallConnection};

verus! {

/// The number of vertices already in a mesh, as the index of the next one.
/// A wall mesh never holds more vertices than `u32` can index.
pub fn vertices_count(positions_len: usize) -> (count: u32)
    requires
        positions_len <= u32::MAX,
    ensures
        count == positions_len,
{
    positions_len as u32
}

/// Two triangles over the four vertices of the wall's top face, which are
/// always the first four vertices of a wall mesh.
pub fn push_top_indices(indices: &mut Vec<u32>)
    ensures
        final(indices)@ == old(indices)@ + seq![0u32, 3, 1, 1, 3, 2],
{
    indices.push(0);
    indices.push(3);
    indices.push(1);
    indices.push(1);
    indices.push(3);
    indices.push(2);
}

/// Two triangles over the quad that closes the start of a wall with no
/// connections, whose four vertices begin at `start`.
pub fn push_front_indices(indices: &mut Vec<u32>, start: u32)
    requires
        start <= u32::MAX - 3,
    ensures
        final(indices)@ == old(indices)@ + seq![
            start,
            (start + 1) as u32,
            (start + 3) as u32,
            (start + 1) as u32,
            (start + 2) as u32,
            (start + 3) as u32,
        ],
{
    indices.push(start);
    indices.push(start + 1);
    indices.push(start + 3);
    indices.push(start + 1);
    indices.push(start + 2);
    indices.push(start + 3);
}

/// Two triangles over the quad that closes the end of a wall with no
/// connections, whose four vertices begin at `start`, wound the other way.
pub fn push_back_indices(indices: &mut Vec<u32>, start: u32)
    requires
        start <= u32::MAX - 3,
    ensures
        final(indices)@ == old(indices)@ + seq![
            start,
            (start + 3) as u32,
            (start + 1) as u32,
            (start + 1) as u32,
            (start + 3) as u32,
            (start + 2) as u32,
        ],
{
    indices.push(start);
    indices.push(start + 3);
    indices.push(start + 1);
    indices.push(start + 1);
    indices.push(start + 3);
    indices.push(start + 2);
}

/// The triangle that fills the gap between three or more walls at the start
/// point: the two start corners of the top face and the vertex at `center`.
pub fn push_start_connection_indices(indices: &mut Vec<u32>, center: u32)
    ensures
        final(indices)@ == old(indices)@ + seq![1u32, center, 0u32],
{
    indices.push(1);
    indices.push(center);
    indices.push(0);
}

/// The triangle that fills the gap between three or more walls at the end
/// point: the two end corners of the top face and the vertex at `center`.
pub fn push_end_connection_indices(indices: &mut Vec<u32>, center: u32)
    ensures
        final(indices)@ == old(indices)@ + seq![3u32, center, 2u32],
{
    indices.push(3);
    indices.push(center);
    indices.push(2);
}

/// `s` with the first and the last index of every complete triangle swapped;
/// a trailing incomplete triangle is left as it is.
pub open spec fn winding_reversed<T>(s: Seq<T>) -> Seq<T> {
    Seq::new(
        s.len(),
        |i: int|
            if (i / 3) * 3 + 3 <= s.len() {
                if i % 3 == 0 {
                    s[i + 2]
                } else if i % 3 == 2 {
                    s[i - 2]
                } else {
                    s[i]
                }
            } else {
                s[i]
            },
    )
}

/// Reversing the winding twice gives the triangles back.
pub proof fn lemma_winding_reversed_twice<T>(s: Seq<T>)
    ensures
        winding_reversed(winding_reversed(s)) == s,
{
    let r = winding_reversed(s);
    assert forall|i: int| 0 <= i < s.len() implies #[trigger] winding_reversed(r)[i] == s[i] by {
        if (i / 3) * 3 + 3 <= s.len() {
            if i % 3 == 0 {
                assert((i + 2) / 3 == i / 3 && (i + 2) % 3 == 2);
            } else if i % 3 == 2 {
                assert((i - 2) / 3 == i / 3 && (i - 2) % 3 == 0);
            }
        }
    }
    assert(winding_reversed(r) =~= s);
}

/// Reverses the winding of every complete triangle, in place.
pub fn reverse_winding<T: Copy>(triangles: &mut Vec<T>)
    ensures
        final(triangles)@ == winding_reversed(old(triangles)@),
{
    let n = triangles.len();
    let ghost orig = triangles@;
    let mut c: usize = 0;
    while n - c >= 3
        invariant
            n == orig.len(),
            triangles@.len() == n,
            c % 3 == 0,
            c <= n,
            forall|i: int| 0 <= i < c ==> triangles@[i] == #[trigger] winding_reversed(orig)[i],
            forall|i: int| c <= i < n ==> triangles@[i] == orig[i],
        decreases n - c,
    {
        let first = triangles[c];
        let last = triangles[c + 2];
        triangles.set(c, last);
        triangles.set(c + 2, first);
        assert forall|i: int| c <= i < c + 3 implies triangles@[i] == #[trigger] winding_reversed(orig)[i] by {
            assert(i / 3 == c / 3);
            assert((i / 3) * 3 == c);
        }
        c = c + 3;
    }
    assert forall|i: int| c <= i < n implies triangles@[i] == #[trigger] winding_reversed(orig)[i] by {
        assert((i / 3) * 3 + 3 > n);
    }
    assert(triangles@ =~= winding_reversed(orig));
}

/// Appends the triangles of a wall side, whose vertices begin at
/// `vertices_start`: `triangles` index the side's own vertices, and their
/// winding is reversed first when `inverse_winding` is set.
pub fn append_side_indices(
    indices: &mut Vec<u32>,
    triangles: Vec<usize>,
    vertices_start: u32,
    inverse_winding: bool,
)
    requires
        forall|i: int| 0 <= i < triangles@.len() ==> vertices_start + triangles@[i] <= u32::MAX,
    ensures
        final(indices)@ == old(indices)@ + (if inverse_winding {
            winding_reversed(triangles@)
        } else {
            triangles@
        }).map_values(|t: usize| (vertices_start + t) as u32),
{
    let mut triangles = triangles;
    let ghost orig = triangles@;
    if inverse_winding {
        reverse_winding(&mut triangles);
        assert forall|i: int| 0 <= i < triangles@.len() implies vertices_start + triangles@[i] <= u32::MAX by {
            let j = if (i / 3) * 3 + 3 <= orig.len() {
                if i % 3 == 0 { i + 2 } else if i % 3 == 2 { i - 2 } else { i }
            } else {
                i
            };
            assert(triangles@[i] == orig[j]);
        }
    }
    let ghost ordered = triangles@;
    let ghost base = indices@;
    let mut i: usize = 0;
    while i < triangles.len()
        invariant
            ordered == triangles@,
            i <= ordered.len(),
            forall|k: int| 0 <= k < ordered.len() ==> vertices_start + ordered[k] <= u32::MAX,
            indices@ == base + ordered.take(i as int).map_values(|t: usize| (vertices_start + t) as u32),
        decreases ordered.len() - i,
    {
        let index = triangles[i];
        indices.push(vertices_start + index as u32);
        i = i + 1;
        assert(ordered.take(i as int) == ordered.take(i - 1).push(ordered[i - 1]));
        assert(ordered.take(i as int).map_values(|t: usize| (vertices_start + t) as u32) =~= ordered.take(
            i - 1,
        ).map_values(|t: usize| (vertices_start + t) as u32).push((vertices_start + index) as u32));
    }
    assert(ordered.take(ordered.len() as int) == ordered);
}

/// The sum of the first `n` lengths.
pub open spec fn sum_prefix(lens: Seq<usize>, n: int) -> int
    decreases n,
{
    if n <= 0 {
        0
    } else {
        sum_prefix(lens, n - 1) + lens[n - 1]
    }
}

pub proof fn lemma_sum_prefix_monotonic(lens: Seq<usize>, a: int, b: int)
    requires
        0 <= a <= b,
    ensures
        sum_prefix(lens, a) <= sum_prefix(lens, b),
    decreases b - a,
{
    if a < b {
        lemma_sum_prefix_monotonic(lens, a, b - 1);
    }
}

/// Where the outline of each hole begins among the side's vertices: the
/// holes' outlines follow one another from `first`, in order.
pub fn hole_indices(first: usize, cutout_lens: &[usize]) -> (starts: Vec<usize>)
    requires
        first + sum_prefix(cutout_lens@, cutout_lens@.len() as int) <= usize::MAX,
    ensures
        starts@.len() == cutout_lens@.len(),
        forall|i: int| 0 <= i < starts@.len() ==> starts@[i] == first + sum_prefix(cutout_lens@, i),
{
    let mut starts: Vec<usize> = Vec::new();
    let mut last_index = first;
    let mut i: usize = 0;
    while i < cutout_lens.len()
        invariant
            i <= cutout_lens@.len(),
            first + sum_prefix(cutout_lens@, cutout_lens@.len() as int) <= usize::MAX,
            last_index == first + sum_prefix(cutout_lens@, i as int),
            starts@.len() == i,
            forall|k: int| 0 <= k < i ==> starts@[k] == first + sum_prefix(cutout_lens@, k),
        decreases cutout_lens@.len() - i,
    {
        starts.push(last_index);
        proof {
            lemma_sum_prefix_monotonic(cutout_lens@, i + 1, cutout_lens@.len() as int);
        }
        last_index = last_index + cutout_lens[i];
        i = i + 1;
    }
    starts
}

/// The ten triangles of a collider cuboid whose eight vertices begin at
/// `last_index`: the bottom corners first, then the top corners. The cuboid
/// has no bottom face.
pub fn push_cuboid_indices(indices: &mut Vec<[u32; 3]>, last_index: u32)
    requires
        last_index <= u32::MAX - 7,
    ensures
        final(indices)@ == old(indices)@ + seq![
            // Top
            [(last_index + 5) as u32, (last_index + 4) as u32, (last_index + 6) as u32],
            [(last_index + 4) as u32, (last_index + 7) as u32, (last_index + 6) as u32],
            // Left
            [(last_index + 3) as u32, (last_index + 4) as u32, last_index],
            [(last_index + 3) as u32, (last_index + 7) as u32, (last_index + 4) as u32],
            // Right
            [(last_index + 1) as u32, (last_index + 5) as u32, (last_index + 2) as u32],
            [(last_index + 5) as u32, (last_index + 6) as u32, (last_index + 2) as u32],
            // Back
            [last_index, (last_index + 5) as u32, (last_index + 1) as u32],
            [last_index, (last_index + 4) as u32, (last_index + 5) as u32],
            // Front
            [(last_index + 2) as u32, (last_index + 6) as u32, (last_index + 3) as u32],
            [(last_index + 6) as u32, (last_index + 7) as u32, (last_index + 3) as u32],
        ],
        forall|t: int, c: int|
            old(indices)@.len() <= t < final(indices)@.len() && 0 <= c < 3 ==> last_index
                <= #[trigger] final(indices)@[t][c] < last_index + 8,
{
    indices.push([last_index + 5, last_index + 4, last_index + 6]);
    indices.push([last_index + 4, last_index + 7, last_index + 6]);
    indices.push([last_index + 3, last_index + 4, last_index]);
    indices.push([last_index + 3, last_index + 7, last_index + 4]);
    indices.push([last_index + 1, last_index + 5, last_index + 2]);
    indices.push([last_index + 5, last_index + 6, last_index + 2]);
    indices.push([last_index, last_index + 5, last_index + 1]);
    indices.push([last_index, last_index + 4, last_index + 5]);
    indices.push([last_index + 2, last_index + 6, last_index + 3]);
    indices.push([last_index + 6, last_index + 7, last_index + 3]);
}

/// How an end of a wall is closed, from the number of walls connected there.
#[derive(Clone, Copy, PartialEq, Eq, Structural, Debug)]
pub enum EndCap {
    /// No connection: a quad closes the wall.
    Face,
    /// One connection: the walls meet at a mitre and nothing is added.
    Mitre,
    /// Two connections or more: a triangle fills the gap between the walls.
    Fill,
}

/// The end cap for `connections` walls connected at one end.
pub fn end_cap(connections: usize) -> (cap: EndCap)
    ensures
        cap == if connections == 0 {
            EndCap::Face
        } else if connections == 1 {
            EndCap::Mitre
        } else {
            EndCap::Fill
        },
{
    if connections == 0 {
        EndCap::Face
    } else if connections == 1 {
        EndCap::Mitre
    } else {
        EndCap::Fill
    }
}

/// A connected wall seen from the shared point: walked away from it when it
/// meets there with its end point.
pub open spec fn oriented(connection: WallConnection) -> Wall {
    match connection.point_kind {
        PointKind::Start => connection.wall,
        PointKind::End => Wall { start: connection.wall.end, end: connection.wall.start },
    }
}

/// The walls connected at the `point_kind` end of a wall, each walked away
/// from the shared point, in connection order.
pub fn oriented_walls(point_kind: PointKind, connections: &[WallConnection]) -> (walls: Vec<Wall>)
    ensures
        walls@ == connections@.map_values(|c: WallConnection| oriented(c)),
{
    let mut walls: Vec<Wall> = Vec::new();
    let mut i: usize = 0;
    while i < connections.len()
        invariant
            i <= connections@.len(),
            walls@ == connections@.take(i as int).map_values(|c: WallConnection| oriented(c)),
        decreases connections@.len() - i,
    {
        let connection = connections[i];
        // Rotate points based on the connection type.
        let wall = match (point_kind, connection.point_kind) {
            (PointKind::Start, PointKind::End) => connection.wall.inverse(),
            (PointKind::End, PointKind::Start) => connection.wall,
            (PointKind::Start, PointKind::Start) => connection.wall,
            (PointKind::End, PointKind::End) => connection.wall.inverse(),
        };
        walls.push(wall);
        i = i + 1;
        assert(connections@.take(i as int) == connections@.take(i - 1).push(connection));
        assert(connections@.take(i as int).map_values(|c: WallConnection| oriented(c)) =~= connections@.take(
            i - 1,
        ).map_values(|c: WallConnection| oriented(c)).push(oriented(connection)));
    }
    assert(connections@.take(connections@.len() as int) == connections@);
    walls
}

/// The indices, in order, of the apertures for which `keep` holds.
pub open spec fn indices_where<G>(s: Seq<Aperture<G>>, keep: spec_fn(Aperture<G>) -> bool, n: int) -> Seq<usize>
    decreases n,
{
    if n <= 0 {
        Seq::empty()
    } else if keep(s[n - 1]) {
        indices_where(s, keep, n - 1).push((n - 1) as usize)
    } else {
        indices_where(s, keep, n - 1)
    }
}

/// The indices of the apertures that are holes (`holes`) or clippings
/// (`!holes`), by increasing distance. A side of a wall is cut by the
/// clippings along its outline and by the holes inside it.
pub fn cut_indices<G>(apertures: &[Aperture<G>], holes: bool) -> (r: Vec<usize>)
    ensures
        r@ == indices_where(apertures@, |a: Aperture<G>| a.hole == holes, apertures@.len() as int),
{
    let mut r: Vec<usize> = Vec::new();
    let mut i: usize = 0;
    while i < apertures.len()
        invariant
            i <= apertures@.len(),
            r@ == indices_where(apertures@, |a: Aperture<G>| a.hole == holes, i as int),
        decreases apertures@.len() - i,
    {
        if apertures[i].hole == holes {
            r.push(i);
        }
        i = i + 1;
    }
    r
}

/// The indices of the apertures that split the collider: clippings of placed
/// objects, by increasing distance.
pub fn collider_cut_indices<G>(apertures: &[Aperture<G>]) -> (r: Vec<usize>)
    ensures
        r@ == indices_where(apertures@, |a: Aperture<G>| a.is_solid_cut(), apertures@.len() as int),
{
    let mut r: Vec<usize> = Vec::new();
    let mut i: usize = 0;
    while i < apertures.len()
        invariant
            i <= apertures@.len(),
            r@ == indices_where(apertures@, |a: Aperture<G>| a.is_solid_cut(), i as int),
        decreases apertures@.len() - i,
    {
        if !apertures[i].hole && !apertures[i].placing_object {
            r.push(i);
        }
        i = i + 1;
    }
    r
}

/// The triangulation settings of a wall side between two calls of the outside
/// triangulator: the holes to cut and the winding of the result.
pub struct Triangulator {
    hole_indices: Vec<u32>,
    inverse_winding: bool,
}

impl Triangulator {
    pub closed spec fn holes(self) -> Seq<u32> {
        self.hole_indices@
    }

    pub closed spec fn inverse(self) -> bool {
        self.inverse_winding
    }

    pub fn new() -> (t: Self)
        ensures
            t.holes() == Seq::<u32>::empty(),
            !t.inverse(),
    {
        Triangulator { hole_indices: Vec::new(), inverse_winding: false }
    }

    pub fn set_inverse_winding(&mut self, inverse_winding: bool)
        ensures
            final(self).inverse() == inverse_winding,
            final(self).holes() == old(self).holes(),
    {
        self.inverse_winding = inverse_winding;
    }

    /// Marks the vertex at `index` as the first of a hole's outline.
    pub fn add_hole(&mut self, index: u32)
        ensures
            final(self).holes() == old(self).holes().push(index),
            final(self).inverse() == old(self).inverse(),
    {
        self.hole_indices.push(index);
    }

    /// The holes to pass to the triangulator.
    pub fn hole_indices(&self) -> (s: &[u32])
        ensures
            s@ == self.holes(),
    {
        self.hole_indices.as_slice()
    }

    /// Takes the triangulator's result: forgets the holes and reverses the
    /// winding of the triangles if asked to.
    pub fn finish(&mut self, indices: &mut Vec<u32>)
        ensures
            final(self).holes() == Seq::<u32>::empty(),
            final(self).inverse() == old(self).inverse(),
            final(indices)@ == if old(self).inverse() {
                winding_reversed(old(indices)@)
            } else {
                old(indices)@
            },
    {
        self.hole_indices.clear();
        if self.inverse_winding {
            reverse_winding(indices);
        }
    }
}

} // verus!
