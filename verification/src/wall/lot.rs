//! Keeping the connections of the walls of one lot up to date.
use vstd::prelude::*;
use crate::wall::connections::{
    link, meeting_points, ConnView, PointKind, Wall, WallConnection, WallConnections,
};
use crate::wall::lot_laws::{
    connections_wf, lemma_entities, lemma_update_connections_lists, lemma_update_connections_symmetric,
    lemma_update_connections_wf, links_consistent, lists_consistent, lemma_cleanup_drops_removed,
    mentions, single_links,
};

verus! {

/// A wall of a lot: its entity, its segment and its connections.
pub struct LotWall {
    pub entity: u64,
    pub wall: Wall,
    pub connections: WallConnections,
}

/// A [`LotWall`] with its connections as sequences.
pub struct LotWallView {
    pub entity: u64,
    pub wall: Wall,
    pub conns: ConnView,
}

impl View for LotWall {
    type V = LotWallView;

    open spec fn view(&self) -> LotWallView {
        LotWallView { entity: self.entity, wall: self.wall, conns: self.connections@ }
    }
}

pub open spec fn lot_view(lot: Seq<LotWall>) -> Seq<LotWallView> {
    lot.map_values(|w: LotWall| w@)
}

pub open spec fn with_conns(w: LotWallView, conns: ConnView) -> LotWallView {
    LotWallView { entity: w.entity, wall: w.wall, conns }
}

/// The first index of the wall `entity` in `lot`.
pub open spec fn lot_index(lot: Seq<LotWallView>, entity: u64) -> Option<int>
    decreases lot.len(),
{
    if lot.len() == 0 {
        None
    } else {
        match lot_index(lot.drop_last(), entity) {
            Some(i) => Some(i),
            None => if lot.last().entity == entity {
                Some(lot.len() - 1)
            } else {
                None
            },
        }
    }
}

pub proof fn lemma_lot_index(lot: Seq<LotWallView>, entity: u64)
    ensures
        match lot_index(lot, entity) {
            Some(i) => 0 <= i < lot.len() && lot[i].entity == entity && forall|j: int|
                0 <= j < i ==> lot[j].entity != entity,
            None => forall|j: int| 0 <= j < lot.len() ==> lot[j].entity != entity,
        },
    decreases lot.len(),
{
    if lot.len() > 0 {
        let rest = lot.drop_last();
        lemma_lot_index(rest, entity);
        assert forall|j: int| 0 <= j < rest.len() implies rest[j] == lot[j] by {}
    }
}

/// Two lots with the same walls in the same order, whatever their connections.
pub open spec fn same_walls(a: Seq<LotWallView>, b: Seq<LotWallView>) -> bool {
    &&& a.len() == b.len()
    &&& forall|k: int| 0 <= k < a.len() ==> a[k].entity == b[k].entity && a[k].wall == b[k].wall
}

pub proof fn lemma_same_walls_index(a: Seq<LotWallView>, b: Seq<LotWallView>, entity: u64)
    requires
        same_walls(a, b),
    ensures
        lot_index(a, entity) == lot_index(b, entity),
    decreases a.len(),
{
    if a.len() > 0 {
        lemma_same_walls_index(a.drop_last(), b.drop_last(), entity);
    }
}

/// Drops the connection to `entity` from the wall `target`.
pub open spec fn unlink_one(lot: Seq<LotWallView>, target: u64, entity: u64) -> Seq<LotWallView> {
    match lot_index(lot, target) {
        Some(j) => lot.update(j, with_conns(lot[j], lot[j].conns.without(entity))),
        None => lot,
    }
}

/// Drops the connection to `entity` from each wall of `targets`, in order.
pub open spec fn unlink_all(lot: Seq<LotWallView>, targets: Seq<u64>, entity: u64) -> Seq<
    LotWallView,
>
    decreases targets.len(),
{
    if targets.len() == 0 {
        lot
    } else {
        unlink_one(unlink_all(lot, targets.drop_last(), entity), targets.last(), entity)
    }
}

/// Connects the wall `entity` with segment `wall` to each of the first `n` walls
/// of `lot` that it meets, other than itself. Returns the lot with the other
/// walls' new connections and the connections of the wall `entity`.
pub open spec fn scan(lot: Seq<LotWallView>, entity: u64, wall: Wall, n: nat) -> (
    Seq<LotWallView>,
    ConnView,
)
    decreases n,
{
    if n == 0 {
        (lot, ConnView::empty())
    } else {
        let (l, c) = scan(lot, entity, wall, (n - 1) as nat);
        let j = n - 1;
        if j >= lot.len() || lot[j].entity == entity {
            (l, c)
        } else {
            match link(wall, lot[j].wall) {
                None => (l, c),
                Some((kw, kj)) => (
                    l.update(
                        j,
                        with_conns(
                            l[j],
                            l[j].conns.push(
                                kj,
                                WallConnection { wall_entity: entity, point_kind: kw, wall },
                            ),
                        ),
                    ),
                    c.push(
                        kw,
                        WallConnection {
                            wall_entity: lot[j].entity,
                            point_kind: kj,
                            wall: lot[j].wall,
                        },
                    ),
                ),
            }
        }
    }
}

/// The lot after the wall at `index` changed and its connections were rebuilt.
pub open spec fn update_spec(lot: Seq<LotWallView>, index: int) -> Seq<LotWallView> {
    let me = lot[index];
    let cleared = lot.update(index, with_conns(me, ConnView::empty()));
    let unlinked = unlink_all(cleared, me.conns.entities(), me.entity);
    let (linked, mine) = if me.wall.is_point() {
        (unlinked, ConnView::empty())
    } else {
        scan(unlinked, me.entity, me.wall, unlinked.len())
    };
    linked.update(index, with_conns(linked[index], mine))
}

/// The lot after the wall `removed` was despawned: no wall is connected to it.
pub open spec fn cleanup_one(lot: Seq<LotWallView>, removed: u64) -> Seq<LotWallView> {
    lot.map_values(|w: LotWallView| with_conns(w, w.conns.without(removed)))
}

/// [`cleanup_one`] for each of `removed`, in order.
pub open spec fn cleanup_all(lot: Seq<LotWallView>, removed: Seq<u64>) -> Seq<LotWallView>
    decreases removed.len(),
{
    if removed.len() == 0 {
        lot
    } else {
        cleanup_one(cleanup_all(lot, removed.drop_last()), removed.last())
    }
}

pub proof fn lemma_unlink_all_same_walls(lot: Seq<LotWallView>, targets: Seq<u64>, entity: u64)
    ensures
        same_walls(unlink_all(lot, targets, entity), lot),
    decreases targets.len(),
{
    if targets.len() > 0 {
        let prev = unlink_all(lot, targets.drop_last(), entity);
        lemma_unlink_all_same_walls(lot, targets.drop_last(), entity);
        lemma_lot_index(prev, targets.last());
    }
}

pub proof fn lemma_scan_same_walls(lot: Seq<LotWallView>, entity: u64, wall: Wall, n: nat)
    ensures
        same_walls(scan(lot, entity, wall, n).0, lot),
    decreases n,
{
    if n > 0 {
        lemma_scan_same_walls(lot, entity, wall, (n - 1) as nat);
    }
}

proof fn lemma_view_update(lot: Seq<LotWall>, j: int, w: LotWall)
    requires
        0 <= j < lot.len(),
    ensures
        lot_view(lot.update(j, w)) == lot_view(lot).update(j, w@),
{
    assert(lot_view(lot.update(j, w)) =~= lot_view(lot).update(j, w@));
}

fn find_wall(lot: &Vec<LotWall>, entity: u64) -> (r: Option<usize>)
    ensures
        match r {
            Some(i) => lot_index(lot_view(lot@), entity) == Some(i as int),
            None => lot_index(lot_view(lot@), entity) is None,
        },
{
    let ghost lv = lot_view(lot@);
    proof {
        lemma_lot_index(lv, entity);
    }
    let mut i: usize = 0;
    while i < lot.len()
        invariant
            lv == lot_view(lot@),
            lv.len() == lot@.len(),
            i <= lot@.len(),
            forall|j: int| 0 <= j < i ==> lv[j].entity != entity,
            match lot_index(lv, entity) {
                Some(k) => 0 <= k < lv.len() && lv[k].entity == entity && forall|j: int|
                    0 <= j < k ==> lv[j].entity != entity,
                None => forall|j: int| 0 <= j < lv.len() ==> lv[j].entity != entity,
            },
        decreases lot@.len() - i,
    {
        assert(lv[i as int].entity == lot@[i as int].entity);
        if lot[i].entity == entity {
            return Some(i);
        }
        i = i + 1;
    }
    None
}

/// The connections of one wall without the one to `entity`, if any.
fn drop_link(lot: &mut Vec<LotWall>, j: usize, entity: u64)
    requires
        j < old(lot)@.len(),
    ensures
        lot_view(final(lot)@) == lot_view(old(lot)@).update(
            j as int,
            with_conns(lot_view(old(lot)@)[j as int], lot_view(old(lot)@)[j as int].conns.without(entity)),
        ),
        final(lot)@.len() == old(lot)@.len(),
{
    let ghost before = lot@;
    let ghost c = before[j as int].connections@;
    assert(lot_view(before)[j as int] == before[j as int]@);
    proof {
        crate::wall::connections::lemma_first_index(c.start, entity);
        crate::wall::connections::lemma_first_index(c.end, entity);
    }
    if let Some((point_kind, index)) = lot[j].connections.position(entity) {
        lot[j].connections.remove(point_kind, index);
        assert(lot@ =~= before.update(j as int, lot@[j as int]));
        assert(lot@[j as int].connections@ == c.without(entity));
        proof {
            lemma_view_update(before, j as int, lot@[j as int]);
        }
        assert(lot_view(lot@) =~= lot_view(before).update(
            j as int,
            with_conns(lot_view(before)[j as int], c.without(entity)),
        ));
    } else {
        assert(lot@ == before);
        assert(c.position(entity) is None);
        assert(c.without(entity) == c);
        assert(with_conns(lot_view(before)[j as int], c) == lot_view(before)[j as int]);
        assert(lot_view(lot@) =~= lot_view(before).update(
            j as int,
            with_conns(lot_view(before)[j as int], c.without(entity)),
        ));
    }
}

/// Drops the connection to `entity` from the wall `target`, which is in the lot.
fn unlink(lot: &mut Vec<LotWall>, target: u64, entity: u64)
    requires
        lot_index(lot_view(old(lot)@), target) is Some,
    ensures
        lot_view(final(lot)@) == unlink_one(lot_view(old(lot)@), target, entity),
        final(lot)@.len() == old(lot)@.len(),
{
    proof {
        lemma_lot_index(lot_view(lot@), target);
    }
    let j = find_wall(lot, target).expect("connected wall should also have connections");
    drop_link(lot, j, entity);
}

/// Drops the connection to `entity` from each wall of `others`, in order.
fn unlink_others(lot: &mut Vec<LotWall>, others: &Vec<u64>, entity: u64)
    requires
        forall|k: int|
            0 <= k < others@.len() ==> lot_index(lot_view(old(lot)@), #[trigger] others@[k]) is Some,
    ensures
        lot_view(final(lot)@) == unlink_all(lot_view(old(lot)@), others@, entity),
        final(lot)@.len() == old(lot)@.len(),
{
    let ghost start = lot_view(lot@);
    let mut i: usize = 0;
    while i < others.len()
        invariant
            i <= others@.len(),
            start == lot_view(old(lot)@),
            forall|k: int|
                0 <= k < others@.len() ==> lot_index(start, #[trigger] others@[k]) is Some,
            lot_view(lot@) == unlink_all(start, others@.take(i as int), entity),
            lot@.len() == start.len(),
        decreases others@.len() - i,
    {
        proof {
            lemma_unlink_all_same_walls(start, others@.take(i as int), entity);
            lemma_same_walls_index(lot_view(lot@), start, others@[i as int]);
        }
        unlink(lot, others[i], entity);
        i = i + 1;
        assert(others@.take(i as int).drop_last() =~= others@.take(i - 1));
    }
    assert(others@.take(others@.len() as int) =~= others@);
}

/// Connects the wall `entity` with segment `wall` and every other wall of the
/// lot that it meets, on both sides; its own side goes to `connections`.
fn link_all(lot: &mut Vec<LotWall>, connections: &mut WallConnections, entity: u64, wall: Wall)
    requires
        old(connections)@ == ConnView::empty(),
    ensures
        (lot_view(final(lot)@), final(connections)@) == scan(
            lot_view(old(lot)@),
            entity,
            wall,
            old(lot)@.len() as nat,
        ),
        final(lot)@.len() == old(lot)@.len(),
{
    let ghost start = lot_view(lot@);
    let n = lot.len();
    let mut j: usize = 0;
    while j < n
        invariant
            start == lot_view(old(lot)@),
            n == start.len(),
            n == lot@.len(),
            j <= n,
            (lot_view(lot@), connections@) == scan(start, entity, wall, j as nat),
        decreases n - j,
    {
        proof {
            lemma_scan_same_walls(start, entity, wall, j as nat);
        }
        let other_entity = lot[j].entity;
        let other_wall = lot[j].wall;
        assert(other_entity == start[j as int].entity && other_wall == start[j as int].wall);
        if other_entity != entity {
            match meeting_points(wall, other_wall) {
                Some((point_kind, other_point_kind)) => {
                    connections.push(
                        point_kind,
                        WallConnection {
                            wall_entity: other_entity,
                            point_kind: other_point_kind,
                            wall: other_wall,
                        },
                    );
                    let ghost before = lot@;
                    lot[j].connections.push(
                        other_point_kind,
                        WallConnection { wall_entity: entity, point_kind, wall },
                    );
                    proof {
                        lemma_view_update(before, j as int, lot@[j as int]);
                    }
                },
                None => {},
            }
        }
        j = j + 1;
    }
}

/// Rebuilds the connections of the wall at `index` after it changed.
///
/// Its old connections are dropped on both sides. Then, unless the wall has
/// zero length, every other wall of the lot that it meets is connected with
/// it on both sides. Connections that both walls agreed on, with no list
/// naming a wall twice, stay so.
pub fn update_connections(lot: &mut Vec<LotWall>, index: usize)
    requires
        index < old(lot)@.len(),
        forall|k: int|
            0 <= k < old(lot)@[index as int].connections@.entities().len() ==> lot_index(
                lot_view(old(lot)@),
                #[trigger] old(lot)@[index as int].connections@.entities()[k],
            ) is Some,
    ensures
        lot_view(final(lot)@) == update_spec(lot_view(old(lot)@), index as int),
        lists_consistent(lot_view(old(lot)@)) ==> lists_consistent(lot_view(final(lot)@)),
        links_consistent(lot_view(old(lot)@)) ==> links_consistent(lot_view(final(lot)@)),
        connections_wf(lot_view(old(lot)@)) ==> connections_wf(lot_view(final(lot)@)),
{
    let ghost lot0 = lot_view(lot@);
    proof {
        let c = lot0[index as int].conns;
        lemma_entities(c);
        assert forall|k: PointKind, x: int| 0 <= x < c.at(k).len() implies lot_index(
            lot0,
            #[trigger] c.at(k)[x].wall_entity,
        ) is Some by {
            let e = c.at(k)[x].wall_entity;
            assert(crate::wall::lot_laws::mentions(c, e));
            assert(c.entities().contains(e));
            let m = choose|m: int| 0 <= m < c.entities().len() && c.entities()[m] == e;
            assert(lot_view(old(lot)@)[index as int].conns == c);
            assert(old(lot)@[index as int].connections@ == c);
            assert(lot_index(lot_view(old(lot)@), old(lot)@[index as int].connections@.entities()[m]) is Some);
        }
        if lists_consistent(lot0) {
            lemma_update_connections_lists(lot0, index as int);
        }
        if links_consistent(lot0) {
            lemma_update_connections_symmetric(lot0, index as int);
        }
        if connections_wf(lot0) {
            lemma_update_connections_wf(lot0, index as int);
        }
    }
    let wall_entity = lot[index].entity;
    let wall = lot[index].wall;
    let mut connections = WallConnections::default();
    let ghost before = lot@;
    std::mem::swap(&mut connections, &mut lot[index].connections);
    proof {
        lemma_view_update(before, index as int, lot@[index as int]);
    }
    let ghost cleared = lot0.update(index as int, with_conns(lot0[index as int], ConnView::empty()));
    assert(lot_view(lot@) =~= cleared);
    let others = connections.drain();
    proof {
        assert(same_walls(cleared, lot0));
        assert forall|k: int| 0 <= k < others@.len() implies lot_index(
            cleared,
            #[trigger] others@[k],
        ) is Some by {
            lemma_same_walls_index(cleared, lot0, others@[k]);
        }
    }
    unlink_others(lot, &others, wall_entity);
    let ghost unlinked = lot_view(lot@);
    if wall.start != wall.end {
        link_all(lot, &mut connections, wall_entity, wall);
    }
    let ghost before = lot@;
    lot[index].connections = connections;
    proof {
        lemma_view_update(before, index as int, lot@[index as int]);
    }
}

/// Drops every connection to the despawned walls `removed`, in order.
pub fn cleanup_connections(lot: &mut Vec<LotWall>, removed: &[u64])
    ensures
        lot_view(final(lot)@) == cleanup_all(lot_view(old(lot)@), removed@),
        (forall|i: int| 0 <= i < old(lot)@.len() ==> single_links(#[trigger] lot_view(old(lot)@)[i].conns))
            ==> forall|i: int, e: u64|
            0 <= i < final(lot)@.len() && removed@.contains(e) ==> !#[trigger] mentions(
                lot_view(final(lot)@)[i].conns,
                e,
            ),
{
    let mut r: usize = 0;
    while r < removed.len()
        invariant
            r <= removed@.len(),
            lot_view(lot@) == cleanup_all(lot_view(old(lot)@), removed@.take(r as int)),
        decreases removed@.len() - r,
    {
        let entity = removed[r];
        let ghost start = lot_view(lot@);
        let mut k: usize = 0;
        while k < lot.len()
            invariant
                k <= lot@.len(),
                lot@.len() == start.len(),
                forall|m: int|
                    0 <= m < k ==> lot_view(lot@)[m] == with_conns(
                        start[m],
                        start[m].conns.without(entity),
                    ),
                forall|m: int| k <= m < lot@.len() ==> lot_view(lot@)[m] == start[m],
            decreases lot@.len() - k,
        {
            drop_link(lot, k, entity);
            k = k + 1;
        }
        assert(lot_view(lot@) =~= cleanup_one(start, entity));
        r = r + 1;
        assert(removed@.take(r as int).drop_last() =~= removed@.take(r - 1));
    }
    assert(removed@.take(removed@.len() as int) =~= removed@);
    proof {
        let l0 = lot_view(old(lot)@);
        if forall|i: int| 0 <= i < old(lot)@.len() ==> single_links(#[trigger] l0[i].conns) {
            lemma_cleanup_drops_removed(l0, removed@);
        }
    }
}

} // verus!
