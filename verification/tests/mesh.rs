use project_harmonia::wall::apertures::Aperture;
use project_harmonia::wall::connections::{PointKind, Wall, WallConnection};
use project_harmonia::wall::mesh::{
    append_side_indices, collider_cut_indices, cut_indices, end_cap, hole_indices,
    oriented_walls, push_back_indices, push_cuboid_indices, push_end_connection_indices,
    push_front_indices, push_start_connection_indices, push_top_indices, reverse_winding,
    vertices_count, EndCap, Triangulator,
};

#[test]
fn quad_indices() {
    let mut indices = Vec::new();
    push_top_indices(&mut indices);
    assert_eq!(indices, vec![0, 3, 1, 1, 3, 2]);
    push_front_indices(&mut indices, 10);
    assert_eq!(&indices[6..], &[10, 11, 13, 11, 12, 13]);
    push_back_indices(&mut indices, 20);
    assert_eq!(&indices[12..], &[20, 23, 21, 21, 23, 22]);
    push_start_connection_indices(&mut indices, 30);
    assert_eq!(&indices[18..], &[1, 30, 0]);
    push_end_connection_indices(&mut indices, 31);
    assert_eq!(&indices[21..], &[3, 31, 2]);
}

#[test]
fn vertices_count_converts() {
    assert_eq!(vertices_count(0), 0);
    assert_eq!(vertices_count(42), 42);
}

#[test]
fn winding_reversal() {
    let mut triangles = vec![1, 2, 3, 4, 5, 6, 7];
    reverse_winding(&mut triangles);
    assert_eq!(triangles, vec![3, 2, 1, 6, 5, 4, 7]);
    reverse_winding(&mut triangles);
    assert_eq!(triangles, vec![1, 2, 3, 4, 5, 6, 7]);
}

#[test]
fn side_indices_are_offset() {
    let mut indices = vec![9];
    append_side_indices(&mut indices, vec![0, 1, 2, 2, 3, 0], 100, false);
    assert_eq!(indices, vec![9, 100, 101, 102, 102, 103, 100]);
    let mut indices = Vec::new();
    append_side_indices(&mut indices, vec![0, 1, 2, 2, 3, 0], 100, true);
    assert_eq!(indices, vec![102, 101, 100, 100, 103, 102]);
}

#[test]
fn holes_follow_each_other() {
    assert_eq!(hole_indices(4, &[4, 6, 3]), vec![4, 8, 14]);
    assert_eq!(hole_indices(4, &[]), Vec::<usize>::new());
}

#[test]
fn cuboid_indices() {
    let mut indices = Vec::new();
    push_cuboid_indices(&mut indices, 8);
    assert_eq!(indices.len(), 10);
    assert_eq!(indices[0], [13, 12, 14]);
    assert_eq!(indices[2], [11, 12, 8]);
    assert_eq!(indices[9], [14, 15, 11]);
    assert!(indices.iter().flatten().all(|&i| (8..16).contains(&i)));
}

#[test]
fn end_caps() {
    assert_eq!(end_cap(0), EndCap::Face);
    assert_eq!(end_cap(1), EndCap::Mitre);
    assert_eq!(end_cap(2), EndCap::Fill);
    assert_eq!(end_cap(5), EndCap::Fill);
}

#[test]
fn walls_are_oriented_away_from_the_point() {
    let wall = Wall { start: 1, end: 2 };
    let connections = [
        WallConnection { wall_entity: 1, point_kind: PointKind::Start, wall },
        WallConnection { wall_entity: 2, point_kind: PointKind::End, wall },
    ];
    let expected = vec![wall, Wall { start: 2, end: 1 }];
    assert_eq!(oriented_walls(PointKind::Start, &connections), expected);
    assert_eq!(oriented_walls(PointKind::End, &connections), expected);
}

#[test]
fn cuts_are_filtered() {
    let apertures = [
        Aperture { object_entity: 1, distance: 1, hole: true, placing_object: false, geometry: () },
        Aperture { object_entity: 2, distance: 2, hole: false, placing_object: true, geometry: () },
        Aperture { object_entity: 3, distance: 3, hole: false, placing_object: false, geometry: () },
    ];
    assert_eq!(cut_indices(&apertures, true), vec![0]);
    assert_eq!(cut_indices(&apertures, false), vec![1, 2]);
    assert_eq!(collider_cut_indices(&apertures), vec![2]);
}

#[test]
fn triangulator_forgets_holes() {
    let mut triangulator = Triangulator::new();
    triangulator.add_hole(4);
    triangulator.add_hole(8);
    assert_eq!(triangulator.hole_indices(), &[4, 8]);
    triangulator.set_inverse_winding(true);
    let mut indices = vec![0, 1, 2];
    triangulator.finish(&mut indices);
    assert_eq!(indices, vec![2, 1, 0]);
    assert!(triangulator.hole_indices().is_empty());
}
