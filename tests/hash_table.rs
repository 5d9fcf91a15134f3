use voxel_world::error::WorldError;
use voxel_world::gpu_hash::{GPUHashTable, KeyValue, NONE, TABLE_CAPACITY};
use voxel_world::util::UVec3;

fn block() -> UVec3 {
    UVec3::new(200, 200, 200)
}

fn hash(k: UVec3) -> u32 {
    k.x.wrapping_add(200u32.wrapping_mul(k.y.wrapping_add(200u32.wrapping_mul(k.z))))
}

#[test]
fn new_table_is_empty() {
    let t = GPUHashTable::new(block());
    assert_eq!(t.buckets().len(), 1000);
    assert_eq!(t.objects().len(), 1000);
    assert_eq!(t.free_slots(), TABLE_CAPACITY);
    assert!(t.buckets().iter().all(|b| *b == NONE));
    assert!(t.objects().iter().all(|s| *s == KeyValue { key: 0, value: 0, next: NONE }));
    assert!(!t.contains(UVec3::new(5, 5, 5), 7));
}

#[test]
fn same_bucket_values_chain_and_unlink() {
    let mut t = GPUHashTable::new(block());
    let k = UVec3::new(5, 5, 5);
    let h = hash(k);
    assert_eq!(h, 201005);
    let b = (h % 1000) as usize;
    assert_eq!(b, 5);

    assert_eq!(t.insert(k, 7), Ok(()));
    assert_eq!(t.insert(k, 9), Ok(()));
    assert!(t.contains(k, 7));
    assert!(t.contains(k, 9));
    // the free stack hands out 999 first, then 998
    assert_eq!(t.buckets()[b], 999);
    assert_eq!(t.objects()[999], KeyValue { key: h, value: 7, next: 998 });
    assert_eq!(t.objects()[998], KeyValue { key: h, value: 9, next: NONE });

    assert_eq!(t.remove(k, 7), Ok(()));
    assert!(!t.contains(k, 7));
    assert!(t.contains(k, 9));
    assert_eq!(t.buckets()[b], 998);
    assert_eq!(t.objects()[998], KeyValue { key: h, value: 9, next: NONE });
    assert_eq!(t.objects()[999], KeyValue { key: 0, value: 0, next: NONE });
    assert_eq!(t.free_slots(), 999);
}

#[test]
fn reinserting_a_pair_uses_no_slot() {
    let mut t = GPUHashTable::new(block());
    let k = UVec3::new(1, 2, 3);
    assert_eq!(t.insert(k, 4), Ok(()));
    assert_eq!(t.insert(k, 5), Ok(()));
    assert_eq!(t.free_slots(), 998);
    // the pair at the tail of the chain, and at its head
    assert_eq!(t.insert(k, 5), Ok(()));
    assert_eq!(t.insert(k, 4), Ok(()));
    assert_eq!(t.free_slots(), 998);
}

#[test]
fn insert_remove_round_trip() {
    let mut t = GPUHashTable::new(block());
    let k = UVec3::new(10, 20, 30);
    assert_eq!(t.insert(k, 3), Ok(()));
    assert!(t.contains(k, 3));
    assert_eq!(t.remove(k, 3), Ok(()));
    assert!(!t.contains(k, 3));
    assert_eq!(t.insert(k, 3), Ok(()));
    assert!(t.contains(k, 3));
    assert_eq!(t.free_slots(), 999);
}

#[test]
fn remove_of_absent_pair_is_key_not_found() {
    let mut t = GPUHashTable::new(block());
    let k = UVec3::new(5, 5, 5);
    assert_eq!(t.remove(k, 1), Err(WorldError::KeyNotFound));
    assert_eq!(t.insert(k, 1), Ok(()));
    assert_eq!(t.remove(k, 2), Err(WorldError::KeyNotFound));
    assert_eq!(t.remove(UVec3::new(6, 5, 5), 1), Err(WorldError::KeyNotFound));
    assert!(t.contains(k, 1));
    assert_eq!(t.free_slots(), 999);
}

#[test]
fn remove_head_middle_and_tail_of_a_chain() {
    let mut t = GPUHashTable::new(block());
    let k = UVec3::new(0, 0, 0);
    for v in 1..=4u32 {
        assert_eq!(t.insert(k, v), Ok(()));
    }
    // chain: 1@999 -> 2@998 -> 3@997 -> 4@996
    assert_eq!(t.remove(k, 2), Ok(()));
    assert_eq!(t.objects()[999].next, 997);
    assert_eq!(t.remove(k, 4), Ok(()));
    assert_eq!(t.objects()[997].next, NONE);
    assert_eq!(t.remove(k, 1), Ok(()));
    assert_eq!(t.buckets()[0], 997);
    assert!(t.contains(k, 3));
    assert_eq!(t.remove(k, 3), Ok(()));
    assert_eq!(t.buckets()[0], NONE);
    assert_eq!(t.free_slots(), 1000);
    // freed slots come back last in, first out
    assert_eq!(t.insert(k, 8), Ok(()));
    assert_eq!(t.buckets()[0], 997);
}

#[test]
fn full_table_refuses_new_pairs_and_keeps_its_entries() {
    let mut t = GPUHashTable::with_capacity(block(), 4, 2);
    let a = UVec3::new(1, 0, 0);
    let b = UVec3::new(5, 0, 0);
    assert_eq!(t.insert(a, 1), Ok(()));
    assert_eq!(t.insert(b, 1), Ok(()));
    assert_eq!(t.free_slots(), 0);
    let before_buckets = t.buckets().clone();
    let before_slots = t.objects().clone();
    assert_eq!(t.insert(UVec3::new(2, 0, 0), 1), Err(WorldError::TableFull));
    assert_eq!(t.insert(a, 2), Err(WorldError::TableFull));
    assert_eq!(t.buckets(), &before_buckets);
    assert_eq!(t.objects(), &before_slots);
    // a pair already held is still accepted
    assert_eq!(t.insert(b, 1), Ok(()));
    assert!(t.contains(a, 1) && t.contains(b, 1));
}

#[test]
fn full_default_table_refuses_the_next_pair() {
    let mut t = GPUHashTable::new(block());
    for i in 0..1000u32 {
        assert_eq!(t.insert(UVec3::new(i, 0, 0), 1), Ok(()));
    }
    assert_eq!(t.free_slots(), 0);
    assert_eq!(t.insert(UVec3::new(1000, 0, 0), 1), Err(WorldError::TableFull));
    for i in 0..1000u32 {
        assert!(t.contains(UVec3::new(i, 0, 0), 1));
    }
}

#[test]
fn hash_wraps_instead_of_overflowing() {
    let mut t = GPUHashTable::new(block());
    let k = UVec3::new(u32::MAX, u32::MAX, u32::MAX);
    assert_eq!(t.insert(k, 1), Ok(()));
    assert!(t.contains(k, 1));
    let h = hash(k);
    let b = (h % 1000) as usize;
    assert_eq!(t.objects()[t.buckets()[b] as usize].key, h);
}

#[test]
fn flattened_arena_lists_key_value_next_triples() {
    let mut t = GPUHashTable::new(block());
    let k = UVec3::new(5, 5, 5);
    t.insert(k, 7).unwrap();
    t.insert(k, 9).unwrap();
    let mut list = vec![42u32; 3001];
    t.opengl_compatible_objects_list(&mut list);
    assert_eq!(&list[3 * 999..3 * 1000], &[201005, 7, 998]);
    assert_eq!(&list[3 * 998..3 * 999], &[201005, 9, NONE]);
    assert_eq!(&list[0..3], &[0, 0, NONE]);
    assert_eq!(list[3000], 42);
}

#[test]
fn insert_then_remove_of_a_new_pair_restores_the_arrays() {
    let mut t = GPUHashTable::new(block());
    t.insert(UVec3::new(5, 5, 5), 7).unwrap();
    t.insert(UVec3::new(3, 0, 0), 1).unwrap();
    let buckets = t.buckets().clone();
    let slots = t.objects().clone();
    let free = t.free_slots();
    assert_eq!(t.insert(UVec3::new(5, 5, 5), 9), Ok(()));
    assert_eq!(t.remove(UVec3::new(5, 5, 5), 9), Ok(()));
    assert_eq!(t.buckets(), &buckets);
    assert_eq!(t.objects(), &slots);
    assert_eq!(t.free_slots(), free);
    // the freed slot is handed out again first
    assert_eq!(t.insert(UVec3::new(6, 0, 0), 2), Ok(()));
    assert_eq!(t.buckets()[6], 997);
}

#[test]
fn remove_of_the_tail_keeps_the_head() {
    let mut t = GPUHashTable::new(block());
    let k = UVec3::new(5, 5, 5);
    t.insert(k, 7).unwrap();
    t.insert(k, 9).unwrap();
    assert_eq!(t.remove(k, 9), Ok(()));
    assert!(t.contains(k, 7) && !t.contains(k, 9));
    assert_eq!(t.buckets()[5], 999);
    assert_eq!(t.objects()[999], KeyValue { key: 201005, value: 7, next: NONE });
    assert_eq!(t.free_slots(), 999);
}
