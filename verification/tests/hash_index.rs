use chunked_table::column::Key;
use chunked_table::hash_index::{hashmap_from_vecs, hashmap_primitive_to_idxs, hashmap_primitive_to_idxs_par, hashmap_slice_to_idxs, hashmap_to_kv, hashmaps_merge_idxs, hashmaps_merge_vec_test, HashIndex};
use chunked_table::last_index::{hashmap_primitive_to_idx, hashmap_primitive_to_idx_par, hashmaps_merge_idx, LastIndex};
use chunked_table::workers::worker_bounds;

#[test]
fn index_lists_positions_in_ascending_order() {
    let keys: Vec<Key> = vec![Some(1), Some(2), Some(1), None, Some(2), Some(1)];
    let idx = hashmap_primitive_to_idxs(&keys);
    assert_eq!(idx.len(), 3);
    assert_eq!(idx.get(&Some(1)), Some(&vec![0u32, 2, 5]));
    assert_eq!(idx.get(&Some(2)), Some(&vec![1u32, 4]));
    assert_eq!(idx.get(&None), Some(&vec![3u32]));
    assert_eq!(idx.get(&Some(7)), None);
    assert!(idx.contains_key(&None));
    assert!(!idx.contains_key(&Some(0)));
}

#[test]
fn index_is_complete() {
    let keys: Vec<Key> = (0..200).map(|i| if i % 13 == 0 { None } else { Some((i * i % 17) as i128) }).collect();
    let idx = hashmap_primitive_to_idxs(&keys);
    for (i, k) in keys.iter().enumerate() {
        assert!(idx.get(k).unwrap().contains(&(i as u32)));
    }
    let listed: usize = (0..idx.len()).map(|j| idx.groups[j].len()).sum();
    assert_eq!(listed, keys.len());
}

#[test]
fn index_of_an_empty_column_is_empty() {
    let idx = hashmap_primitive_to_idxs(&vec![]);
    assert_eq!(idx.len(), 0);
    assert_eq!(idx.get(&None), None);
    let last = hashmap_primitive_to_idx(&vec![]);
    assert_eq!(last.get(&None), None);
}

#[test]
fn partitioned_index_equals_serial_index() {
    let n: usize = 25_000;
    let keys: Vec<Key> = (0..n).map(|i| if i % 11 == 0 { None } else { Some((i % 7) as i128) }).collect();
    let serial = hashmap_primitive_to_idxs(&keys);
    let parallel = hashmap_primitive_to_idxs_par(&keys);
    assert_eq!(serial.len(), parallel.len());
    for k in [None, Some(0), Some(1), Some(2), Some(3), Some(4), Some(5), Some(6)] {
        assert_eq!(serial.get(&k), parallel.get(&k));
    }
    assert_eq!(parallel.get(&Some(1)).unwrap()[..3], [1u32, 8, 15]);
    assert_eq!(*parallel.get(&None).unwrap().last().unwrap(), 24_992u32);
}

#[test]
fn local_indexes_count_positions_from_the_start_of_the_column() {
    let keys: Vec<Key> = vec![Some(1), Some(2), Some(1), Some(2), Some(1)];
    let local = hashmap_slice_to_idxs(&keys, 2, 5);
    assert_eq!(local.get(&Some(1)), Some(&vec![2u32, 4]));
    assert_eq!(local.get(&Some(2)), Some(&vec![3u32]));
}

#[test]
fn merge_appends_groups_in_the_order_of_the_maps() {
    let keys: Vec<Key> = vec![Some(1), Some(2), Some(1), Some(3), Some(2), Some(1)];
    let maps = vec![
        hashmap_slice_to_idxs(&keys, 0, 2),
        hashmap_slice_to_idxs(&keys, 2, 4),
        hashmap_slice_to_idxs(&keys, 4, 6),
    ];
    let merged = hashmaps_merge_idxs(maps);
    let whole = hashmap_primitive_to_idxs(&keys);
    for k in [Some(1), Some(2), Some(3), None] {
        assert_eq!(merged.get(&k), whole.get(&k));
    }
    assert_eq!(merged.get(&Some(1)), Some(&vec![0u32, 2, 5]));
    let maps = vec![
        hashmap_slice_to_idxs(&keys, 0, 2),
        hashmap_slice_to_idxs(&keys, 2, 4),
        hashmap_slice_to_idxs(&keys, 4, 6),
    ];
    let other = hashmaps_merge_vec_test(maps);
    assert_eq!(other.len(), 3);
    for k in [Some(1), Some(2), Some(3), None] {
        assert_eq!(other.get(&k), whole.get(&k));
    }
}

#[test]
fn last_index_keeps_the_last_position() {
    let keys: Vec<Key> = vec![Some(1), None, Some(1), Some(3), None];
    let idx = hashmap_primitive_to_idx(&keys);
    assert_eq!(idx.get(&Some(1)), Some(2));
    assert_eq!(idx.get(&None), Some(4));
    assert_eq!(idx.get(&Some(3)), Some(3));
    assert_eq!(idx.get(&Some(4)), None);
}

#[test]
fn last_index_merge_lets_the_later_map_win() {
    let mut a = LastIndex::new();
    a.insert(Some(1), 10);
    a.insert(Some(2), 20);
    let mut b = LastIndex::new();
    b.insert(Some(2), 21);
    b.insert(None, 30);
    let merged = hashmaps_merge_idx(vec![a, b]);
    assert_eq!(merged.get(&Some(1)), Some(10));
    assert_eq!(merged.get(&Some(2)), Some(21));
    assert_eq!(merged.get(&None), Some(30));
}

#[test]
fn partitioned_last_index_equals_serial_last_index() {
    let n: usize = 30_001;
    let keys: Vec<Key> = (0..n).map(|i| Some((i % 1000) as i128)).collect();
    let serial = hashmap_primitive_to_idx(&keys);
    let parallel = hashmap_primitive_to_idx_par(&keys);
    for k in 0..1000 {
        assert_eq!(serial.get(&Some(k)), parallel.get(&Some(k)));
    }
    assert_eq!(parallel.get(&Some(0)), Some(30_000));
    assert_eq!(parallel.get(&Some(999)), Some(29_999));
}

#[test]
fn worker_bounds_tile_the_column() {
    let len = 10_001;
    let size = len / 24 + 1;
    let mut at = 0;
    for w in 0..24 {
        let (lo, hi) = worker_bounds(len, w, size);
        assert_eq!(lo, at);
        assert!(hi >= lo);
        at = hi;
    }
    assert_eq!(at, len);
    assert_eq!(worker_bounds(10, 3, 4), (10, 10));
    assert_eq!(worker_bounds(10, 2, 4), (8, 10));
    assert_eq!(worker_bounds(10, 5, 0), (0, 0));
}

#[test]
fn push_and_append_open_groups_in_the_order_of_first_use() {
    let mut idx = HashIndex::new();
    idx.push(Some(5), 0);
    idx.push(None, 1);
    idx.append(Some(5), &vec![7, 9]);
    idx.append(Some(6), &vec![2]);
    let (keys, values) = hashmap_to_kv(&idx);
    assert_eq!(keys, vec![Some(5), None, Some(6)]);
    assert_eq!(values, vec![&vec![0u32, 7, 9], &vec![1u32], &vec![2u32]]);
}

#[test]
fn from_vecs_pairs_as_far_as_both_lists_go() {
    let (a, b, c) = ("a".to_string(), "b".to_string(), "c".to_string());
    let pairs = hashmap_from_vecs(vec![&a, &b, &c], vec![1, 2]);
    assert_eq!(pairs, vec![("a".to_string(), 1), ("b".to_string(), 2)]);
    let pairs = hashmap_from_vecs(vec![&a], vec![7, 8, 9]);
    assert_eq!(pairs, vec![("a".to_string(), 7)]);
}
