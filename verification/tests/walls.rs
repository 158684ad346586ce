use project_harmonia::wall::apertures::{mount_change, Aperture, Apertures, MountChange};
use project_harmonia::wall::connections::{
    meeting_points, PointKind, Wall, WallConnection, WallConnections,
};
use project_harmonia::wall::lot::{cleanup_connections, update_connections, LotWall};

fn lot_wall(entity: u64, start: u64, end: u64) -> LotWall {
    LotWall {
        entity,
        wall: Wall { start, end },
        connections: WallConnections::default(),
    }
}

fn entities(connections: &[WallConnection]) -> Vec<(u64, PointKind)> {
    connections
        .iter()
        .map(|c| (c.wall_entity, c.point_kind))
        .collect()
}

#[test]
fn meeting_points_tries_cases_in_order() {
    let a = Wall { start: 1, end: 2 };
    assert_eq!(
        meeting_points(a, Wall { start: 1, end: 3 }),
        Some((PointKind::Start, PointKind::Start))
    );
    assert_eq!(
        meeting_points(a, Wall { start: 3, end: 1 }),
        Some((PointKind::Start, PointKind::End))
    );
    assert_eq!(
        meeting_points(a, Wall { start: 3, end: 2 }),
        Some((PointKind::End, PointKind::End))
    );
    assert_eq!(
        meeting_points(a, Wall { start: 2, end: 3 }),
        Some((PointKind::End, PointKind::Start))
    );
    // Same segment reversed: the start-to-end case wins.
    assert_eq!(
        meeting_points(a, Wall { start: 2, end: 1 }),
        Some((PointKind::Start, PointKind::End))
    );
    assert_eq!(meeting_points(a, Wall { start: 4, end: 5 }), None);
}

#[test]
fn inverse_swaps_points() {
    let wall = Wall { start: 7, end: 9 }.inverse();
    assert_eq!(wall, Wall { start: 9, end: 7 });
}

#[test]
fn connections_position_remove_drain() {
    let mut connections = WallConnections::default();
    let other = Wall { start: 0, end: 0 };
    connections.push(
        PointKind::Start,
        WallConnection { wall_entity: 10, point_kind: PointKind::End, wall: other },
    );
    connections.push(
        PointKind::End,
        WallConnection { wall_entity: 11, point_kind: PointKind::Start, wall: other },
    );
    connections.push(
        PointKind::End,
        WallConnection { wall_entity: 12, point_kind: PointKind::Start, wall: other },
    );
    assert_eq!(connections.position(10), Some((PointKind::Start, 0)));
    assert_eq!(connections.position(12), Some((PointKind::End, 1)));
    assert_eq!(connections.position(13), None);
    connections.remove(PointKind::End, 0);
    assert_eq!(connections.position(12), Some((PointKind::End, 0)));
    assert_eq!(connections.drain(), vec![10, 12]);
    assert!(connections.at(PointKind::Start).is_empty());
    assert!(connections.at(PointKind::End).is_empty());
}

#[test]
fn update_connects_both_sides() {
    // A corner: wall 1 from point 1 to 2, wall 2 from 2 to 3, wall 3 far away.
    let mut lot = vec![lot_wall(1, 1, 2), lot_wall(2, 2, 3), lot_wall(3, 8, 9)];
    update_connections(&mut lot, 0);
    assert!(lot[0].connections.at(PointKind::Start).is_empty());
    assert_eq!(
        entities(lot[0].connections.at(PointKind::End)),
        vec![(2, PointKind::Start)]
    );
    assert_eq!(
        entities(lot[1].connections.at(PointKind::Start)),
        vec![(1, PointKind::End)]
    );
    assert!(lot[1].connections.at(PointKind::End).is_empty());
    assert!(lot[2].connections.at(PointKind::Start).is_empty());
    assert!(lot[2].connections.at(PointKind::End).is_empty());
    assert_eq!(lot[1].connections.at(PointKind::Start)[0].wall, Wall { start: 1, end: 2 });
}

#[test]
fn update_scans_walls_after_itself() {
    // The changed wall is the first one: the walls after it are still scanned.
    let mut lot = vec![lot_wall(1, 5, 6), lot_wall(2, 6, 7), lot_wall(3, 5, 9)];
    update_connections(&mut lot, 0);
    assert_eq!(
        entities(lot[0].connections.at(PointKind::Start)),
        vec![(3, PointKind::Start)]
    );
    assert_eq!(
        entities(lot[0].connections.at(PointKind::End)),
        vec![(2, PointKind::Start)]
    );
    assert_eq!(
        entities(lot[2].connections.at(PointKind::Start)),
        vec![(1, PointKind::Start)]
    );
}

#[test]
fn moving_a_wall_drops_old_connections() {
    let mut lot = vec![lot_wall(1, 1, 2), lot_wall(2, 2, 3)];
    update_connections(&mut lot, 0);
    assert_eq!(lot[1].connections.position(1), Some((PointKind::Start, 0)));
    lot[0].wall = Wall { start: 4, end: 5 };
    update_connections(&mut lot, 0);
    assert_eq!(lot[1].connections.position(1), None);
    assert_eq!(lot[0].connections.position(2), None);
}

#[test]
fn zero_length_wall_has_no_connections() {
    let mut lot = vec![lot_wall(1, 2, 2), lot_wall(2, 2, 3)];
    update_connections(&mut lot, 0);
    assert_eq!(lot[0].connections.position(2), None);
    assert_eq!(lot[1].connections.position(1), None);
}

#[test]
fn cleanup_drops_connections_to_removed_walls() {
    let mut lot = vec![lot_wall(1, 1, 2), lot_wall(2, 2, 3), lot_wall(3, 3, 1)];
    update_connections(&mut lot, 0);
    update_connections(&mut lot, 1);
    update_connections(&mut lot, 2);
    assert_eq!(lot[0].connections.position(3), Some((PointKind::Start, 0)));
    let removed = lot.remove(2);
    cleanup_connections(&mut lot, &[removed.entity]);
    assert_eq!(lot[0].connections.position(3), None);
    assert_eq!(lot[1].connections.position(3), None);
    assert_eq!(lot[0].connections.position(2), Some((PointKind::End, 0)));
}

fn aperture(entity: u64, distance: i32, hole: bool, placing_object: bool) -> Aperture<()> {
    Aperture { object_entity: entity, distance, hole, placing_object, geometry: () }
}

#[test]
fn apertures_stay_sorted() {
    let mut apertures = Apertures::new();
    apertures.insert(aperture(1, 30, true, false));
    assert!(!apertures.collision_outdated());
    apertures.insert(aperture(2, 10, false, true));
    assert!(!apertures.collision_outdated());
    apertures.insert(aperture(3, 20, false, false));
    assert!(apertures.collision_outdated());
    let order: Vec<u64> = apertures.iter().iter().map(|a| a.object_entity).collect();
    assert_eq!(order, vec![2, 3, 1]);
    assert_eq!(apertures.position(1), Some(2));
    assert_eq!(apertures.search(20), Ok(1));
    assert_eq!(apertures.search(25), Err(2));
    apertures.set_collision_updated();
    let removed = apertures.remove(0);
    assert_eq!(removed.object_entity, 2);
    assert!(!apertures.collision_outdated());
    assert!(apertures.remove_existing(3).is_some());
    assert!(apertures.collision_outdated());
    assert!(apertures.remove_existing(3).is_none());
}

#[test]
fn aperture_distance_taken() {
    let mut apertures = Apertures::new();
    apertures.insert(aperture(1, 5, true, false));
    assert_eq!(apertures.search(5), Ok(0));
    assert_eq!(apertures.search(4), Err(0));
    assert_eq!(apertures.search(6), Err(1));
}

#[test]
fn mount_changes() {
    assert_eq!(mount_change(Some(1), Some(1)), (MountChange::Moved { wall: 1 }, Some(1)));
    assert_eq!(
        mount_change(Some(2), Some(1)),
        (MountChange::Transferred { from: 1, to: 2 }, Some(2))
    );
    assert_eq!(mount_change(Some(2), None), (MountChange::Added { wall: 2 }, Some(2)));
    assert_eq!(mount_change(None, Some(1)), (MountChange::Removed { from: 1 }, None));
    assert_eq!(mount_change(None, None), (MountChange::Unchanged, None));
}

#[test]
fn update_keeps_links_to_walls_outside_the_lot() {
    // Wall 3 names wall 99, which is not in the lot; updating wall 1 leaves that
    // connection alone and links walls 1 and 2 on both sides.
    let mut lot = vec![lot_wall(1, 1, 2), lot_wall(2, 2, 3), lot_wall(3, 8, 9)];
    lot[2].connections.push(
        PointKind::End,
        WallConnection { wall_entity: 99, point_kind: PointKind::Start, wall: Wall { start: 9, end: 10 } },
    );
    update_connections(&mut lot, 0);
    assert_eq!(entities(lot[0].connections.at(PointKind::End)), vec![(2, PointKind::Start)]);
    assert_eq!(entities(lot[1].connections.at(PointKind::Start)), vec![(1, PointKind::End)]);
    assert_eq!(entities(lot[2].connections.at(PointKind::End)), vec![(99, PointKind::Start)]);
}

#[test]
fn update_drops_a_pair_named_at_both_ends() {
    // Walls 1 (1 -> 2) and 2 (2 -> 1) name each other at both of their ends;
    // updating wall 1 drops both pairs and links them once again.
    let other = |wall: Wall, entity: u64, point_kind: PointKind| WallConnection { wall_entity: entity, point_kind, wall };
    let a = Wall { start: 1, end: 2 };
    let b = Wall { start: 2, end: 1 };
    let mut lot = vec![lot_wall(1, 1, 2), lot_wall(2, 2, 1)];
    lot[0].connections.push(PointKind::Start, other(b, 2, PointKind::End));
    lot[0].connections.push(PointKind::End, other(b, 2, PointKind::Start));
    lot[1].connections.push(PointKind::Start, other(a, 1, PointKind::End));
    lot[1].connections.push(PointKind::End, other(a, 1, PointKind::Start));
    update_connections(&mut lot, 0);
    assert_eq!(entities(lot[0].connections.at(PointKind::Start)), vec![(2, PointKind::End)]);
    assert!(lot[0].connections.at(PointKind::End).is_empty());
    assert!(lot[1].connections.at(PointKind::Start).is_empty());
    assert_eq!(entities(lot[1].connections.at(PointKind::End)), vec![(1, PointKind::Start)]);
}
