use voxel_world::pathfind::{is_traversable, Node, Voxel};
use voxel_world::point::Point3D;
use voxel_world::volume::Volume;

fn p(x: u32, y: u32, z: u32) -> Point3D {
    Point3D::new(x, y, z)
}

#[test]
fn volume_shape_and_fill() {
    let v: Volume<u32> = Volume::new(p(10, 20, 30), p(13, 24, 32), 7);
    assert_eq!(v.len(), 3 * 4 * 2);
    assert_eq!(v.start_location(), p(10, 20, 30));
    assert_eq!(v.end_location(), p(13, 24, 32));
    assert_eq!(v.get(p(12, 23, 31)), 7);
    let empty: Volume<u32> = Volume::new(p(4, 4, 4), p(4, 9, 9), 0);
    assert_eq!(empty.len(), 0);
    assert!(!empty.within_bounds(p(4, 4, 4)));
}

#[test]
fn volume_index_layout() {
    let v: Volume<u32> = Volume::new(p(10, 20, 30), p(13, 24, 32), 0);
    assert_eq!(v.get_index(p(10, 20, 30)), 0);
    assert_eq!(v.get_index(p(11, 20, 30)), 1);
    assert_eq!(v.get_index(p(10, 21, 30)), 3);
    assert_eq!(v.get_index(p(10, 20, 31)), 12);
    assert_eq!(v.get_index(p(12, 23, 31)), 23);
    assert_eq!(v.get_location(23), p(12, 23, 31));
    assert_eq!(v.get_location(5), p(12, 21, 30));
}

#[test]
fn volume_index_round_trip() {
    let v: Volume<u8> = Volume::new(p(3, 1, 7), p(8, 5, 10), 0);
    for i in 0..v.len() {
        let l = v.get_location(i);
        assert!(v.within_bounds(l));
        assert_eq!(v.get_index(l), i);
    }
}

#[test]
fn volume_bounds() {
    let v: Volume<u32> = Volume::new(p(1, 1, 1), p(3, 3, 3), 0);
    assert!(v.within_bounds(p(1, 1, 1)));
    assert!(v.within_bounds(p(2, 2, 2)));
    assert!(!v.within_bounds(p(3, 2, 2)));
    assert!(!v.within_bounds(p(0, 2, 2)));
    assert!(!v.within_bounds(p(2, 2, 3)));
}

#[test]
fn volume_write_then_read() {
    let mut v: Volume<u32> = Volume::new(p(0, 0, 0), p(4, 4, 4), 0);
    v.set(p(1, 2, 3), 9);
    v.set(p(3, 2, 1), 8);
    assert_eq!(v.get(p(1, 2, 3)), 9);
    assert_eq!(v.get(p(3, 2, 1)), 8);
    assert_eq!(v.get(p(2, 2, 2)), 0);
}

#[test]
fn voxel_types() {
    let names = ["unknown", "air", "water", "stone"];
    let solid = [true, false, false, true];
    for id in 0..4u32 {
        let t = Voxel { id, extra_data: None }.get_type();
        assert_eq!(t.id, id);
        assert_eq!(t.name, names[id as usize]);
        assert_eq!(t.solid, solid[id as usize]);
    }
}

#[test]
fn traversability() {
    let air = Voxel { id: 1, extra_data: None };
    let stone = Voxel { id: 3, extra_data: None };
    let water = Voxel { id: 2, extra_data: None };
    let mut map = Volume::new(p(0, 0, 0), p(3, 1, 3), air);
    map.set(p(0, 0, 0), stone);
    map.set(p(1, 0, 0), water);
    map.set(p(2, 0, 1), stone);
    assert!(is_traversable(&map, p(0, 0, 1)));
    assert!(!is_traversable(&map, p(1, 0, 1)));
    assert!(!is_traversable(&map, p(2, 0, 1)));
    assert!(is_traversable(&map, p(2, 0, 2)));
    assert!(!is_traversable(&map, p(0, 0, 0)));
    assert!(!is_traversable(&map, p(0, 0, 3)));
    assert!(!is_traversable(&map, p(5, 0, 1)));
}

#[test]
fn node_key_is_packed_location() {
    let n = Node { location: p(1, 2, 3), cost: 9 };
    assert_eq!(n.calculate_hash(), (1u128 << 64) + (2u128 << 32) + 3);
    let m = Node { location: p(1, 2, 3), cost: 0 };
    assert_eq!(n.calculate_hash(), m.calculate_hash());
}
