use voxel_world::error::WorldError;
use voxel_world::util::{IVec3, UVec3};
use voxel_world::world::{Alignment, ObjectType, World, WorldObject, OBJECT_SLOTS};

fn cube() -> WorldObject {
    WorldObject::new()
}

fn light(x: i32, y: i32, z: i32, extent: u32) -> WorldObject {
    let mut o = WorldObject::new();
    o.object_type = ObjectType::LightSource;
    o.center = IVec3::new(x, y, z);
    o.extent = extent;
    o
}

fn wall(x: i32, y: i32, z: i32, extent: u32) -> WorldObject {
    let mut o = light(x, y, z, extent);
    o.object_type = ObjectType::RoundWall;
    o
}

fn held(w: &World, k: UVec3, i: usize) -> bool {
    w.hash_map().contains(k, i as u32)
}

#[test]
fn new_world_is_empty() {
    let w = World::new();
    for i in 0..OBJECT_SLOTS {
        assert!(!w.is_object(i));
        assert_eq!(w.get_object(i), WorldObject::new());
    }
    assert!(w.light_sources().is_empty());
    assert_eq!(w.hash_map().free_slots(), 1000);
    assert!(w.aligned_objects().is_empty());
}

#[test]
fn point_like_object_takes_one_biased_voxel() {
    let mut w = World::new();
    let i = w.insert_object(IVec3::new(2, 3, 4), cube()).unwrap();
    assert_eq!(i, 165);
    assert!(w.is_object(i));
    assert_eq!(w.voxels_of(i), &vec![UVec3::new(102, 103, 104)]);
    assert!(held(&w, UVec3::new(102, 103, 104), i));
    assert_eq!(w.hash_map().free_slots(), 999);
    assert!(w.light_sources().is_empty());
}

#[test]
fn light_source_fills_its_cube_and_is_listed() {
    let mut w = World::new();
    let i = w.insert_object(IVec3::new(0, 0, 0), light(10, 10, 10, 0)).unwrap();
    assert_eq!(w.voxels_of(i).len(), 27);
    for x in 109..=111 {
        for y in 109..=111 {
            for z in 109..=111 {
                assert!(held(&w, UVec3::new(x, y, z), i));
            }
        }
    }
    assert!(!held(&w, UVec3::new(112, 110, 110), i));
    assert_eq!(w.voxels_of(i)[0], UVec3::new(109, 109, 109));
    assert_eq!(w.voxels_of(i)[1], UVec3::new(109, 109, 110));
    assert_eq!(w.light_sources(), &vec![i as u32]);
    assert_eq!(w.hash_map().free_slots(), 1000 - 27);
}

#[test]
fn extent_one_gives_a_cube_of_edge_five() {
    let mut w = World::new();
    let i = w.insert_object(IVec3::new(0, 0, 0), wall(5, 6, 7, 1)).unwrap();
    assert_eq!(w.voxels_of(i).len(), 125);
    assert!(held(&w, UVec3::new(103, 104, 105), i));
    assert!(held(&w, UVec3::new(107, 108, 109), i));
    assert!(!held(&w, UVec3::new(108, 108, 109), i));
    assert!(w.light_sources().is_empty());
}

#[test]
fn voxelization_does_not_depend_on_call_order() {
    let mut a = World::new();
    let mut b = World::new();
    a.insert_object(IVec3::new(0, 0, 0), cube()).unwrap();
    let ia = a.insert_object(IVec3::new(0, 0, 0), wall(20, 20, 20, 0)).unwrap();
    let ib = b.insert_object(IVec3::new(0, 0, 0), wall(20, 20, 20, 0)).unwrap();
    assert_ne!(ia, ib);
    assert_eq!(a.voxels_of(ia), b.voxels_of(ib));
}

#[test]
fn stored_record_is_unaligned() {
    let mut w = World::new();
    let mut o = light(1, 1, 1, 0);
    o.aligned_to_object = 30;
    o.object_aligned_to_self = 31;
    o.alignment = Alignment::Right;
    let i = w.insert_object(IVec3::new(0, 0, 0), o).unwrap();
    let r = w.get_object(i);
    assert_eq!(r.aligned_to_object, 0);
    assert_eq!(r.object_aligned_to_self, 0);
    assert_eq!(r.alignment, Alignment::Front);
    assert_eq!(r.center, IVec3::new(1, 1, 1));
    assert_eq!(r.object_type, ObjectType::LightSource);
}

#[test]
fn removed_index_is_reused_first() {
    let mut w = World::new();
    let a = w.insert_object(IVec3::new(0, 0, 0), cube()).unwrap();
    let b = w.insert_object(IVec3::new(1, 0, 0), cube()).unwrap();
    let c = w.insert_object(IVec3::new(2, 0, 0), cube()).unwrap();
    assert_eq!((a, b, c), (165, 164, 163));
    w.remove_object(a);
    w.remove_object(c);
    assert!(!w.is_object(c));
    assert_eq!(w.insert_object(IVec3::new(3, 0, 0), cube()), Ok(c));
    assert_eq!(w.insert_object(IVec3::new(4, 0, 0), cube()), Ok(a));
    assert_eq!(w.insert_object(IVec3::new(5, 0, 0), cube()), Ok(162));
}

#[test]
fn remove_object_clears_voxels_light_and_slot() {
    let mut w = World::new();
    let i = w.insert_object(IVec3::new(0, 0, 0), light(10, 10, 10, 0)).unwrap();
    let j = w.insert_object(IVec3::new(0, 0, 0), light(30, 30, 30, 0)).unwrap();
    w.remove_object(i);
    assert!(!held(&w, UVec3::new(110, 110, 110), i));
    assert!(held(&w, UVec3::new(130, 130, 130), j));
    assert!(w.voxels_of(i).is_empty());
    assert_eq!(w.get_object(i), WorldObject::new());
    assert_eq!(w.light_sources(), &vec![j as u32]);
    assert_eq!(w.hash_map().free_slots(), 1000 - 27);
}

#[test]
fn registry_full_after_all_indices_are_taken() {
    let mut w = World::new();
    for n in 0..(OBJECT_SLOTS - 1) {
        assert_eq!(w.insert_object(IVec3::new(n as i32, 0, 0), cube()), Ok(OBJECT_SLOTS - 1 - n));
    }
    let slots = w.hash_map().free_slots();
    assert_eq!(w.insert_object(IVec3::new(0, 1, 0), cube()), Err(WorldError::RegistryFull));
    assert_eq!(w.hash_map().free_slots(), slots);
    assert!(!held(&w, UVec3::new(100, 101, 100), 0));
    for i in 1..OBJECT_SLOTS {
        assert!(w.is_object(i));
    }
}

#[test]
fn table_full_when_the_cube_does_not_fit() {
    let mut w = World::new();
    let a = w.insert_object(IVec3::new(0, 0, 0), cube()).unwrap();
    // half-width 5: 11 * 11 * 11 = 1331 voxels
    assert_eq!(
        w.insert_object(IVec3::new(0, 0, 0), wall(20, 20, 20, 4)),
        Err(WorldError::TableFull)
    );
    assert_eq!(w.hash_map().free_slots(), 999);
    assert!(held(&w, UVec3::new(100, 100, 100), a));
    // the index was not taken
    assert_eq!(w.insert_object(IVec3::new(1, 0, 0), cube()), Ok(a - 1));
}

#[test]
fn table_full_after_eight_cubes_of_edge_five() {
    let mut w = World::new();
    for n in 0..8 {
        assert!(w.insert_object(IVec3::new(0, 0, 0), wall(10 * n, 0, 0, 1)).is_ok());
    }
    assert_eq!(w.hash_map().free_slots(), 0);
    assert_eq!(
        w.insert_object(IVec3::new(0, 0, 0), wall(90, 0, 0, 1)),
        Err(WorldError::TableFull)
    );
    assert_eq!(w.insert_object(IVec3::new(0, 0, 0), cube()), Err(WorldError::TableFull));
}

#[test]
fn update_moves_the_voxels() {
    let mut w = World::new();
    let i = w.insert_object(IVec3::new(0, 0, 0), light(10, 10, 10, 0)).unwrap();
    let mut moved = w.get_object(i);
    moved.center = IVec3::new(12, 10, 10);
    assert_eq!(w.update_object_position(i, moved), Ok(()));
    assert!(!held(&w, UVec3::new(109, 110, 110), i));
    assert!(held(&w, UVec3::new(111, 110, 110), i));
    assert!(held(&w, UVec3::new(113, 110, 110), i));
    assert_eq!(w.voxels_of(i).len(), 27);
    assert_eq!(w.get_object(i).center, IVec3::new(12, 10, 10));
    assert_eq!(w.hash_map().free_slots(), 1000 - 27);
    assert_eq!(w.light_sources(), &vec![i as u32]);
}

#[test]
fn update_may_reuse_the_slots_it_frees() {
    let mut w = World::new();
    let mut ids = vec![];
    for n in 0..8 {
        ids.push(w.insert_object(IVec3::new(0, 0, 0), wall(10 * n, 0, 0, 1)).unwrap());
    }
    assert_eq!(w.hash_map().free_slots(), 0);
    let mut moved = w.get_object(ids[0]);
    moved.center = IVec3::new(0, 20, 0);
    assert_eq!(w.update_object_position(ids[0], moved), Ok(()));
    assert!(held(&w, UVec3::new(100, 120, 100), ids[0]));
    let mut bigger = w.get_object(ids[1]);
    bigger.extent = 2;
    assert_eq!(w.update_object_position(ids[1], bigger), Err(WorldError::TableFull));
    assert_eq!(w.get_object(ids[1]).extent, 1);
    assert!(held(&w, UVec3::new(110, 100, 100), ids[1]));
}

#[test]
fn alignment_links_go_both_ways() {
    let mut w = World::new();
    let a = w.insert_object(IVec3::new(0, 0, 0), light(10, 10, 10, 0)).unwrap();
    let b = w.insert_object(IVec3::new(0, 0, 0), light(20, 10, 10, 0)).unwrap();
    assert_eq!(w.align_object(b, a, Alignment::Right), Ok(()));
    assert_eq!(w.get_object(b).aligned_to_object, a);
    assert_eq!(w.get_object(b).alignment, Alignment::Right);
    assert_eq!(w.get_object(a).object_aligned_to_self, b);
    assert_eq!(w.aligned_objects(), vec![b]);
}

#[test]
fn invalid_alignments_are_refused() {
    let mut w = World::new();
    let a = w.insert_object(IVec3::new(0, 0, 0), light(10, 10, 10, 0)).unwrap();
    let b = w.insert_object(IVec3::new(0, 0, 0), light(20, 10, 10, 0)).unwrap();
    let c = w.insert_object(IVec3::new(0, 0, 0), light(30, 10, 10, 0)).unwrap();
    assert_eq!(w.align_object(a, a, Alignment::Front), Err(WorldError::InvalidAlignment));
    assert_eq!(w.align_object(a, 0, Alignment::Front), Err(WorldError::InvalidAlignment));
    assert_eq!(w.align_object(a, 7, Alignment::Front), Err(WorldError::InvalidAlignment));
    assert_eq!(w.align_object(a, 500, Alignment::Front), Err(WorldError::InvalidAlignment));
    assert_eq!(w.align_object(b, a, Alignment::Front), Ok(()));
    // a is aligned to b
    assert_eq!(w.align_object(a, b, Alignment::Front), Err(WorldError::InvalidAlignment));
    // a already has a dependent
    assert_eq!(w.align_object(c, a, Alignment::Up), Err(WorldError::InvalidAlignment));
    assert_eq!(w.get_object(c).aligned_to_object, 0);
    assert_eq!(w.get_object(a).object_aligned_to_self, b);
    // once the caller detaches it, the request goes through
    w.remove_alignment(b);
    assert_eq!(w.get_object(a).object_aligned_to_self, 0);
    assert_eq!(w.align_object(c, a, Alignment::Up), Ok(()));
    assert_eq!(w.get_object(a).object_aligned_to_self, c);
}

#[test]
fn realigning_clears_the_previous_anchor() {
    let mut w = World::new();
    let a = w.insert_object(IVec3::new(0, 0, 0), light(10, 10, 10, 0)).unwrap();
    let b = w.insert_object(IVec3::new(0, 0, 0), light(20, 10, 10, 0)).unwrap();
    let c = w.insert_object(IVec3::new(0, 0, 0), light(30, 10, 10, 0)).unwrap();
    w.align_object(b, a, Alignment::Front).unwrap();
    assert_eq!(w.align_object(b, c, Alignment::Right), Ok(()));
    assert_eq!(w.get_object(a).object_aligned_to_self, 0);
    assert_eq!(w.get_object(c).object_aligned_to_self, b);
    assert_eq!(w.get_object(b).aligned_to_object, c);
}

#[test]
fn removing_the_anchor_unaligns_the_dependent() {
    let mut w = World::new();
    let a = w.insert_object(IVec3::new(0, 0, 0), light(10, 10, 10, 0)).unwrap();
    let b = w.insert_object(IVec3::new(0, 0, 0), light(20, 10, 10, 0)).unwrap();
    w.align_object(b, a, Alignment::Up).unwrap();
    w.remove_object(a);
    assert_eq!(w.get_object(b).aligned_to_object, 0);
    assert_eq!(w.get_object(b).alignment, Alignment::Front);
    assert!(w.aligned_objects().is_empty());
}

#[test]
fn removing_the_dependent_clears_the_anchor() {
    let mut w = World::new();
    let a = w.insert_object(IVec3::new(0, 0, 0), light(10, 10, 10, 0)).unwrap();
    let b = w.insert_object(IVec3::new(0, 0, 0), light(20, 10, 10, 0)).unwrap();
    w.align_object(b, a, Alignment::Up).unwrap();
    w.remove_object(b);
    assert_eq!(w.get_object(a).object_aligned_to_self, 0);
    assert_eq!(w.align_object(a, b, Alignment::Up), Err(WorldError::InvalidAlignment));
}

#[test]
fn aligned_objects_are_listed_in_index_order() {
    let mut w = World::new();
    let ids: Vec<usize> = (0..4)
        .map(|n| w.insert_object(IVec3::new(0, 0, 0), light(10 * n + 5, 10, 10, 0)).unwrap())
        .collect();
    w.align_object(ids[0], ids[1], Alignment::Front).unwrap();
    w.align_object(ids[3], ids[2], Alignment::Front).unwrap();
    assert_eq!(w.aligned_objects(), vec![ids[3], ids[0]]);
}

#[test]
fn repeated_move_keeps_the_same_voxels() {
    let mut w = World::new();
    let i = w.insert_object(IVec3::new(0, 0, 0), light(10, 10, 10, 1)).unwrap();
    let mut moved = w.get_object(i);
    moved.center = IVec3::new(11, 10, 10);
    assert_eq!(w.update_object_position(i, moved), Ok(()));
    let voxels = w.voxels_of(i).clone();
    let free = w.hash_map().free_slots();
    assert_eq!(w.update_object_position(i, moved), Ok(()));
    assert_eq!(w.voxels_of(i), &voxels);
    assert_eq!(w.hash_map().free_slots(), free);
    assert_eq!(voxels.len(), 125);
    assert!(!held(&w, UVec3::new(108, 110, 110), i));
    assert!(held(&w, UVec3::new(113, 110, 110), i));
}

#[test]
fn removed_light_leaves_the_light_list() {
    let mut w = World::new();
    let a = w.insert_object(IVec3::new(0, 0, 0), light(10, 10, 10, 0)).unwrap();
    let b = w.insert_object(IVec3::new(0, 0, 0), light(20, 10, 10, 0)).unwrap();
    let c = w.insert_object(IVec3::new(0, 0, 0), light(30, 10, 10, 0)).unwrap();
    w.remove_object(b);
    assert_eq!(w.light_sources(), &vec![a as u32, c as u32]);
}

#[test]
fn cube_far_from_the_first_block_keeps_every_key() {
    let mut w = World::new();
    let i = w.insert_object(IVec3::new(0, 0, 0), light(5000, -90, 70000, 1)).unwrap();
    let keys = w.voxels_of(i).clone();
    assert_eq!(keys.len(), 125);
    let mut sorted = keys.clone();
    sorted.sort_by_key(|k| (k.x, k.y, k.z));
    sorted.dedup();
    assert_eq!(sorted.len(), 125);
    assert!(keys.iter().all(|k| (5098..=5102).contains(&k.x)
        && (8..=12).contains(&k.y)
        && (70098..=70102).contains(&k.z)));
    assert_eq!(w.hash_map().free_slots(), 1000 - 125);
}
