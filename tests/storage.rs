use voxel_world::chunk::{Chunk, DataSegment, CHUNK_VOLUME, DATA_SEGMENT_SIZE};
use voxel_world::dimension::{Dimension, WorldError};
use voxel_world::point::Point3D;

fn p(x: u32, y: u32, z: u32) -> Point3D {
    Point3D::new(x, y, z)
}

#[test]
fn point_checked_arithmetic() {
    assert_eq!(p(1, 2, 3).checked_add(p(4, 5, 6)), Some(p(5, 7, 9)));
    assert_eq!(p(4, 5, 6).checked_sub(p(1, 2, 3)), Some(p(3, 3, 3)));
    assert_eq!(p(0, 5, 6).checked_sub(p(1, 0, 0)), None);
    assert_eq!(p(5, 5, 0).checked_sub(p(0, 0, 1)), None);
    assert_eq!(p(u32::MAX, 0, 0).checked_add(p(1, 0, 0)), None);
    assert_eq!(p(0, 0, u32::MAX).checked_add(p(0, 0, 0)), Some(p(0, 0, u32::MAX)));
}

#[test]
fn packed_key_orders_lexicographically() {
    assert_eq!(p(0, 0, 7).packed_key(), 7);
    assert_eq!(p(0, 1, 0).packed_key(), 1u128 << 32);
    assert_eq!(p(1, 0, 0).packed_key(), 1u128 << 64);
    assert_eq!(p(u32::MAX, u32::MAX, u32::MAX).packed_key(), (1u128 << 96) - 1);
    assert!(p(0, u32::MAX, u32::MAX).packed_key() < p(1, 0, 0).packed_key());
    assert!(p(3, 4, 5).packed_key() < p(3, 5, 0).packed_key());
}

#[test]
fn addressing_round_trip() {
    for g in [p(0, 0, 0), p(15, 16, 17), p(31, 100, 4095), p(u32::MAX, 12345, 16 * 7 + 3)] {
        let c = Dimension::<u32>::get_chunk_location(g);
        let v = Dimension::<u32>::get_voxel_location(g);
        assert!(v.x < 16 && v.y < 16 && v.z < 16);
        assert_eq!(c.x as u64 * 16 + v.x as u64, g.x as u64);
        assert_eq!(c.y as u64 * 16 + v.y as u64, g.y as u64);
        assert_eq!(c.z as u64 * 16 + v.z as u64, g.z as u64);
    }
    assert_eq!(Dimension::<u32>::get_chunk_location(p(17, 33, 15)), p(1, 2, 0));
    assert_eq!(Dimension::<u32>::get_voxel_location(p(17, 33, 15)), p(1, 1, 15));
}

#[test]
fn chunk_index_layout() {
    assert_eq!(Chunk::<u32>::get_index(p(0, 0, 0)), 0);
    assert_eq!(Chunk::<u32>::get_index(p(1, 0, 0)), 1);
    assert_eq!(Chunk::<u32>::get_index(p(0, 1, 0)), 16);
    assert_eq!(Chunk::<u32>::get_index(p(0, 0, 1)), 256);
    assert_eq!(Chunk::<u32>::get_index(p(15, 15, 15)), CHUNK_VOLUME - 1);
}

#[test]
fn chunk_write_then_read() {
    let mut c: Chunk<u32> = Chunk::from_value(7);
    assert_eq!(c.get(p(3, 4, 5)), 7);
    c.set(p(3, 4, 5), 42);
    c.set(p(5, 4, 3), 43);
    assert_eq!(c.get(p(3, 4, 5)), 42);
    assert_eq!(c.get(p(5, 4, 3)), 43);
    assert_eq!(c.get(p(4, 4, 4)), 7);
    assert_eq!(c.cell_values()[Chunk::<u32>::get_index(p(5, 4, 3))], 43);
    assert!(c.extra_data().is_none());
}

#[test]
fn chunk_default_fill() {
    let c: Chunk<u32> = Chunk::new();
    assert!(c.cell_values().iter().all(|v| *v == 0));
    assert_eq!(c.cell_values().len(), CHUNK_VOLUME);
}

#[test]
fn chunk_payload_round_trip() {
    let mut c: Chunk<u32> =
        Chunk::from_value_with_extra_data(9, Some(DataSegment::from("forest")));
    c.set(p(15, 0, 2), 1);
    let copy = Chunk::from_cells(*c.cell_values(), c.extra_data());
    assert_eq!(copy.cell_values()[..], c.cell_values()[..]);
    assert_eq!(copy.extra_data().unwrap().data()[..], c.extra_data().unwrap().data()[..]);
    assert_eq!(copy.get(p(15, 0, 2)), 1);
}

#[test]
fn data_segment_contents() {
    assert!(DataSegment::new().data().iter().all(|b| *b == 0));
    let d = DataSegment::from("abc").data();
    assert_eq!(&d[..4], &[b'a', b'b', b'c', 0]);
    assert!(d[3..].iter().all(|b| *b == 0));
    assert!(DataSegment::from("").data().iter().all(|b| *b == 0));
    let long = "x".repeat(300);
    let d = DataSegment::from(&long).data();
    assert_eq!(d.len(), DATA_SEGMENT_SIZE);
    assert!(d[..DATA_SEGMENT_SIZE - 1].iter().all(|b| *b == b'x'));
    assert_eq!(d[DATA_SEGMENT_SIZE - 1], 0);
}

#[test]
fn world_membership() {
    let mut w: Dimension<u32> = Dimension::new();
    assert!(!w.chunk_defined(p(0, 0, 0)));
    assert!(!w.chunk_loaded(p(0, 0, 0)));
    w.add_chunk_in_place(p(0, 0, 0), Chunk::from_value(1));
    w.add_chunk_in_place(p(1, 0, 0), Chunk::from_value(2));
    assert!(w.chunk_defined(p(0, 0, 0)) && w.chunk_loaded(p(0, 0, 0)));
    assert_eq!(w.get_chunk(p(1, 0, 0)).unwrap().get(p(0, 0, 0)), 2);
    w.add_chunk_in_place(p(1, 0, 0), Chunk::from_value(3));
    assert_eq!(w.get_chunk(p(1, 0, 0)).unwrap().get(p(0, 0, 0)), 3);
    w.remove_chunk_in_place(p(0, 0, 0));
    assert!(!w.chunk_defined(p(0, 0, 0)) && !w.chunk_loaded(p(0, 0, 0)));
    assert!(w.chunk_defined(p(1, 0, 0)));
    w.remove_chunk_in_place(p(9, 9, 9));
    assert!(w.chunk_loaded(p(1, 0, 0)));
    assert!(w.disk_cache().is_none());
    w.set_disk_cache(Some(String::from("saves/world")));
    assert_eq!(w.disk_cache().as_deref(), Some("saves/world"));
}

#[test]
fn undefined_chunk_is_an_error() {
    let w: Dimension<u32> = Dimension::new();
    assert_eq!(w.get_chunk(p(2, 2, 2)).err(), Some(WorldError::UndefinedChunk));
    assert_eq!(w.sync_chunk(p(2, 2, 2)).err(), Some(WorldError::UndefinedChunk));
    assert_eq!(w.get_voxel(p(40, 40, 40)).err(), Some(WorldError::UndefinedChunk));
}

/// Drives one chunk in the way a persistence layer would, counting its loads.
fn ensure_loaded(w: &mut Dimension<u32>, at: Point3D, loads: &mut u32) -> Result<u32, WorldError> {
    loop {
        match w.get_chunk(at) {
            Ok(c) => return Ok(c.get(p(0, 0, 0))),
            Err(WorldError::ChunkNotLoaded) => {
                *loads += 1;
                w.load_chunk(at, Some(Chunk::from_value(5)))?;
            }
            Err(e) => return Err(e),
        }
    }
}

#[test]
fn cold_chunk_loads_once() {
    let mut w: Dimension<u32> = Dimension::new();
    w.define_chunk(p(1, 1, 1));
    assert!(w.chunk_defined(p(1, 1, 1)));
    assert!(!w.chunk_loaded(p(1, 1, 1)));
    assert_eq!(w.get_chunk(p(1, 1, 1)).err(), Some(WorldError::ChunkNotLoaded));
    let mut loads = 0;
    assert_eq!(ensure_loaded(&mut w, p(1, 1, 1), &mut loads), Ok(5));
    assert_eq!(loads, 1);
    assert!(w.chunk_loaded(p(1, 1, 1)));
    assert_eq!(ensure_loaded(&mut w, p(1, 1, 1), &mut loads), Ok(5));
    assert_eq!(loads, 1);
    assert_eq!(ensure_loaded(&mut w, p(7, 7, 7), &mut loads), Err(WorldError::UndefinedChunk));
    assert_eq!(loads, 1);
}

#[test]
fn load_chunk_outcomes() {
    let mut w: Dimension<u32> = Dimension::new();
    assert_eq!(w.load_chunk(p(0, 0, 1), Some(Chunk::from_value(1))), Err(WorldError::UndefinedChunk));
    assert!(!w.chunk_loaded(p(0, 0, 1)));
    w.define_chunk(p(0, 0, 1));
    assert_eq!(w.load_chunk(p(0, 0, 1), None), Err(WorldError::PersistenceFailure));
    assert!(!w.chunk_loaded(p(0, 0, 1)));
    assert_eq!(w.load_chunk(p(0, 0, 1), Some(Chunk::from_value(4))), Ok(()));
    assert_eq!(w.get_voxel(p(3, 3, 20)), Ok(4));
    // a chunk in memory is kept
    assert_eq!(w.load_chunk(p(0, 0, 1), Some(Chunk::from_value(8))), Ok(()));
    assert_eq!(w.get_voxel(p(3, 3, 20)), Ok(4));
}

#[test]
fn unload_keeps_definition() {
    let mut w: Dimension<u32> = Dimension::new();
    let mut c = Chunk::from_value(0);
    c.set(p(2, 3, 4), 11);
    w.add_chunk_in_place(p(0, 0, 0), c);
    assert_eq!(w.get_voxel(p(2, 3, 4)), Ok(11));
    let out = w.unload_chunk(p(0, 0, 0)).unwrap();
    assert_eq!(out.get(p(2, 3, 4)), 11);
    assert!(w.chunk_defined(p(0, 0, 0)));
    assert!(!w.chunk_loaded(p(0, 0, 0)));
    assert_eq!(w.get_voxel(p(2, 3, 4)), Err(WorldError::ChunkNotLoaded));
    assert!(w.unload_chunk(p(0, 0, 0)).is_none());
    assert_eq!(w.load_chunk(p(0, 0, 0), Some(out)), Ok(()));
    assert_eq!(w.get_voxel(p(2, 3, 4)), Ok(11));
}

#[test]
fn get_voxel_crosses_chunks() {
    let mut w: Dimension<u32> = Dimension::new();
    let mut a = Chunk::from_value(1);
    a.set(p(15, 15, 15), 100);
    let mut b = Chunk::from_value(2);
    b.set(p(0, 15, 15), 200);
    w.add_chunk_in_place(p(0, 0, 0), a);
    w.add_chunk_in_place(p(1, 0, 0), b);
    assert_eq!(w.get_voxel(p(15, 15, 15)), Ok(100));
    assert_eq!(w.get_voxel(p(16, 15, 15)), Ok(200));
    assert_eq!(w.get_voxel(p(17, 15, 15)), Ok(2));
    assert_eq!(w.get_voxel(p(0, 16, 0)), Err(WorldError::UndefinedChunk));
}

#[test]
fn flush_of_empty_world_is_empty() {
    let w: Dimension<u32> = Dimension::new();
    assert!(w.flush().is_empty());
    let mut cold: Dimension<u32> = Dimension::new();
    cold.define_chunk(p(1, 2, 3));
    assert!(cold.flush().is_empty());
}

#[test]
fn flush_lists_each_loaded_chunk_once() {
    let mut w: Dimension<u32> = Dimension::new();
    w.add_chunk_in_place(p(2, 0, 0), Chunk::from_value(0));
    w.define_chunk(p(5, 5, 5));
    w.add_chunk_in_place(p(0, 1, 0), Chunk::from_value(0));
    w.add_chunk_in_place(p(2, 0, 0), Chunk::from_value(1));
    w.add_chunk_in_place(p(9, 0, 0), Chunk::from_value(0));
    w.unload_chunk(p(9, 0, 0));
    assert_eq!(w.flush(), vec![p(2, 0, 0), p(0, 1, 0)]);
    assert_eq!(w.sync_chunk(p(2, 0, 0)).unwrap().get(p(0, 0, 0)), 1);
    assert_eq!(w.sync_chunk(p(9, 0, 0)).err(), Some(WorldError::ChunkNotLoaded));
}

#[test]
fn window_copies_across_chunks() {
    let mut w: Dimension<u32> = Dimension::new();
    let mut a = Chunk::from_value(1);
    a.set(p(15, 1, 0), 10);
    let mut b = Chunk::from_value(2);
    b.set(p(0, 1, 0), 20);
    w.add_chunk_in_place(p(0, 0, 0), a);
    w.add_chunk_in_place(p(1, 0, 0), b);
    let v = w.get_volume(p(14, 0, 0), p(18, 2, 2), 0).unwrap();
    assert_eq!(v.len(), 16);
    assert_eq!(v.get(p(14, 0, 0)), 1);
    assert_eq!(v.get(p(15, 1, 0)), 10);
    assert_eq!(v.get(p(16, 1, 0)), 20);
    assert_eq!(v.get(p(17, 1, 1)), 2);
}

#[test]
fn window_needs_loaded_chunks() {
    let mut w: Dimension<u32> = Dimension::new();
    w.add_chunk_in_place(p(0, 0, 0), Chunk::from_value(1));
    assert_eq!(w.get_volume(p(14, 0, 0), p(18, 2, 2), 0).err(), Some(WorldError::UndefinedChunk));
    w.define_chunk(p(1, 0, 0));
    assert_eq!(w.get_volume(p(14, 0, 0), p(18, 2, 2), 0).err(), Some(WorldError::ChunkNotLoaded));
    assert_eq!(w.get_volume(p(0, 0, 0), p(16, 16, 16), 0).map(|v| v.len()), Ok(4096));
    assert_eq!(w.get_volume(p(40, 40, 40), p(40, 40, 40), 0).map(|v| v.len()), Ok(0));
}
