use voxel_world::pathfind::{get_djikstra_map, Voxel, UNREACHABLE};
use voxel_world::point::Point3D;
use voxel_world::volume::Volume;

fn p(x: u32, y: u32, z: u32) -> Point3D {
    Point3D::new(x, y, z)
}

/// A 5×5×2 platform: stone at z = 0, air at z = 1.
fn platform() -> Volume<Voxel> {
    let mut map = Volume::new(p(0, 0, 0), p(5, 5, 2), Voxel { id: 1, extra_data: None });
    for x in 0..5 {
        for y in 0..5 {
            map.set(p(x, y, 0), Voxel { id: 3, extra_data: None });
        }
    }
    map
}

fn dist(a: u32, b: u32) -> u32 {
    if a > b { a - b } else { b - a }
}

#[test]
fn single_source_on_platform() {
    let map = platform();
    let field = get_djikstra_map(&map, vec![(p(2, 2, 1), 0)]);
    assert_eq!(field.start_location(), p(0, 0, 0));
    assert_eq!(field.end_location(), p(5, 5, 2));
    for x in 0..5 {
        for y in 0..5 {
            assert_eq!(field.get(p(x, y, 1)), dist(x, 2) + dist(y, 2));
            assert_eq!(field.get(p(x, y, 0)), UNREACHABLE);
        }
    }
}

#[test]
fn two_sources_merge_by_cost() {
    let map = platform();
    let field = get_djikstra_map(&map, vec![(p(1, 2, 1), 0), (p(3, 2, 1), 5)]);
    assert_eq!(field.get(p(1, 2, 1)), 0);
    assert_eq!(field.get(p(3, 2, 1)), 2);
    assert_eq!(field.get(p(4, 2, 1)), 3);
    assert_eq!(field.get(p(4, 4, 1)), 5);
    for x in 0..5 {
        for y in 0..5 {
            assert_eq!(field.get(p(x, y, 1)), dist(x, 1) + dist(y, 2));
        }
    }
}

#[test]
fn cheaper_far_source_wins() {
    let map = platform();
    let field = get_djikstra_map(&map, vec![(p(0, 0, 1), 0), (p(4, 4, 1), 20)]);
    assert_eq!(field.get(p(4, 4, 1)), 8);
}

#[test]
fn no_sources_give_no_costs() {
    let map = platform();
    let field = get_djikstra_map(&map, Vec::new());
    assert_eq!(field.len(), 50);
    for i in 0..field.len() {
        assert_eq!(field.get(field.get_location(i)), UNREACHABLE);
    }
}

#[test]
fn sources_outside_are_ignored() {
    let map = platform();
    let field = get_djikstra_map(&map, vec![(p(2, 2, 2), 0), (p(9, 9, 1), 0)]);
    for i in 0..field.len() {
        assert_eq!(field.get(field.get_location(i)), UNREACHABLE);
    }
}

#[test]
fn zero_volume_region() {
    let map = Volume::new(p(0, 0, 0), p(0, 3, 3), Voxel { id: 1, extra_data: None });
    let field = get_djikstra_map(&map, vec![(p(0, 1, 1), 0)]);
    assert_eq!(field.len(), 0);
}

#[test]
fn solver_is_deterministic() {
    let mut map = platform();
    map.set(p(2, 1, 0), Voxel { id: 2, extra_data: None });
    map.set(p(1, 3, 1), Voxel { id: 0, extra_data: None });
    let seeds = vec![(p(0, 0, 1), 3), (p(4, 4, 1), 1), (p(2, 2, 1), 4)];
    let a = get_djikstra_map(&map, seeds.clone());
    let b = get_djikstra_map(&map, seeds);
    for i in 0..a.len() {
        assert_eq!(a.get(a.get_location(i)), b.get(b.get_location(i)));
    }
}

#[test]
fn walls_force_detours() {
    // a stone wall at x = 2 on the walking level, open only at y = 4
    let mut map = platform();
    for y in 0..4 {
        map.set(p(2, y, 1), Voxel { id: 3, extra_data: None });
    }
    let field = get_djikstra_map(&map, vec![(p(0, 0, 1), 0)]);
    assert_eq!(field.get(p(2, 0, 1)), UNREACHABLE);
    assert_eq!(field.get(p(2, 4, 1)), 6);
    assert_eq!(field.get(p(4, 0, 1)), 12);
}

#[test]
fn source_cost_near_limit() {
    let map = platform();
    let field = get_djikstra_map(&map, vec![(p(2, 2, 1), UNREACHABLE - 2)]);
    assert_eq!(field.get(p(2, 2, 1)), UNREACHABLE - 2);
    assert_eq!(field.get(p(2, 3, 1)), UNREACHABLE - 1);
    assert_eq!(field.get(p(2, 4, 1)), UNREACHABLE);
}
