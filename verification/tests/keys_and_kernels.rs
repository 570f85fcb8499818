use chunked_table::chunks::Chunk;
use chunked_table::column::{ColumnArray, Key};
use chunked_table::composite::{array_to_u64, arrays_to_hash, groupby_many_test, widen};
use chunked_table::datatypes::{Cell, DataType, Field, TableError};
use chunked_table::filter::{filter_array, FilterPredicate};
use chunked_table::join::{join_arrays, join_probe};
use chunked_table::hash_index::hashmap_primitive_to_idxs;
use chunked_table::merge::{
    arrays_to_array, arrays_to_idx, delete_arrays, joint_keys, keys_absent, merge_arrays,
};
use chunked_table::last_index::hashmap_primitive_to_idx;
use chunked_table::table::Table;

fn ints(data_type: DataType, values: &[Option<i128>]) -> ColumnArray {
    let cells = values
        .iter()
        .map(|v| match v {
            Some(x) => Cell::Int(*x),
            None => Cell::Null,
        })
        .collect();
    ColumnArray::new(data_type, cells).unwrap()
}

fn some(values: &[i128]) -> Vec<Option<i128>> {
    values.iter().map(|x| Some(*x)).collect()
}

#[test]
fn test_filter() {
    let array = ints(DataType::Int32, &[Some(1), None, Some(3)]);
    let filter = FilterPredicate::LessEqual(Some(2));
    let filter_arr = filter_array(&array, &filter).unwrap();

    assert_eq!(filter_arr, vec![Some(true), None, Some(false)]);
}

#[test]
fn every_predicate_compares_as_it_says() {
    let array = ints(DataType::Int64, &[Some(1), Some(2), None, Some(3)]);
    let ask = |p: FilterPredicate| filter_array(&array, &p).unwrap();
    let (t, f) = (Some(true), Some(false));
    assert_eq!(ask(FilterPredicate::LessEqual(Some(2))), vec![t, t, None, f]);
    assert_eq!(ask(FilterPredicate::Less(Some(2))), vec![t, f, None, f]);
    assert_eq!(ask(FilterPredicate::Greater(Some(2))), vec![f, f, None, t]);
    assert_eq!(ask(FilterPredicate::GreaterEqual(Some(2))), vec![f, t, None, t]);
    assert_eq!(ask(FilterPredicate::Equal(Some(2))), vec![f, t, None, f]);
    assert_eq!(ask(FilterPredicate::NotEqual(Some(2))), vec![t, f, None, t]);
}

#[test]
fn a_null_scalar_gives_nulls_only() {
    let array = ints(DataType::Int16, &[Some(1), None]);
    for p in [
        FilterPredicate::LessEqual(None),
        FilterPredicate::Less(None),
        FilterPredicate::Greater(None),
        FilterPredicate::GreaterEqual(None),
        FilterPredicate::Equal(None),
        FilterPredicate::NotEqual(None),
    ] {
        assert_eq!(filter_array(&array, &p).unwrap(), vec![None, None]);
    }
}

#[test]
fn filter_refuses_what_it_cannot_compare() {
    let text = ColumnArray::new(DataType::Utf8, vec![]).unwrap();
    assert_eq!(
        filter_array(&text, &FilterPredicate::Equal(Some(1))),
        Err(TableError::UnsupportedKeyType(DataType::Utf8))
    );
    let wide = ints(DataType::UInt64, &[Some(u64::MAX as i128)]);
    assert_eq!(
        filter_array(&wide, &FilterPredicate::Equal(Some(1))),
        Err(TableError::Overflow)
    );
    assert_eq!(widen(&wide), None);
    assert_eq!(
        widen(&ints(DataType::UInt64, &[Some(5), None])),
        Some(vec![Some(5i64), None])
    );
}

#[test]
fn shifting_starts_a_column_at_zero() {
    let a = ints(DataType::Int64, &[Some(-5), None, Some(7), Some(-2)]);
    assert_eq!(array_to_u64(&a), Ok(vec![Some(0u64), None, Some(12), Some(3)]));
    let b = ints(DataType::Int8, &[Some(100), Some(120)]);
    assert_eq!(array_to_u64(&b), Ok(vec![Some(0u64), Some(20)]));
    let nulls = ints(DataType::Int32, &[None, None]);
    assert_eq!(array_to_u64(&nulls), Ok(vec![None, None]));
    assert_eq!(array_to_u64(&ints(DataType::Int32, &[])), Ok(vec![]));
}

#[test]
fn shifting_refuses_what_does_not_fit() {
    let wide = ints(DataType::Int64, &[Some(i64::MIN as i128), Some(i64::MAX as i128)]);
    assert_eq!(array_to_u64(&wide), Err(TableError::Overflow));
    let unsigned = ints(DataType::UInt64, &[Some(u64::MAX as i128)]);
    assert_eq!(array_to_u64(&unsigned), Err(TableError::Overflow));
    let text = ColumnArray::new(DataType::Utf8, vec![]).unwrap();
    assert_eq!(
        array_to_u64(&text),
        Err(TableError::UnsupportedKeyType(DataType::Utf8))
    );
    let null_at_the_edge = ints(DataType::Int64, &[Some(i64::MIN as i128), None]);
    assert_eq!(array_to_u64(&null_at_the_edge), Err(TableError::Overflow));
    let edge = ints(DataType::Int64, &[Some(i64::MIN as i128), Some(-1)]);
    assert_eq!(array_to_u64(&edge), Ok(vec![Some(0u64), Some(i64::MAX as u64)]));
}

#[test]
fn composite_keys_fold_the_columns() {
    let a = ints(DataType::Int32, &some(&[0, 1, 0, 1]));
    let b = ints(DataType::Int32, &some(&[0, 0, 1, 1]));
    assert_eq!(
        arrays_to_hash(&vec![a, b]),
        Ok(vec![Some(0u64), Some(1), Some(1), Some(2)])
    );
    let x = ints(DataType::Int64, &some(&[10, 12, 11, 12]));
    let y = ints(DataType::Int64, &some(&[5, 5, 6, 7]));
    let z = ints(DataType::Int64, &[Some(1), None, Some(1), Some(3)]);
    assert_eq!(
        arrays_to_hash(&vec![x, y, z]),
        Ok(vec![Some(0u64), None, Some(18), Some(38)])
    );
    let single = ints(DataType::Int64, &[Some(3), None, Some(9)]);
    assert_eq!(arrays_to_hash(&vec![single]), Ok(vec![Some(0u64), None, Some(6)]));
}

#[test]
fn composite_keys_refuse_to_leave_sixty_four_bits() {
    let big = ints(DataType::Int64, &some(&[0, (1i128 << 32)]));
    let next = ints(DataType::Int64, &some(&[0, 1]));
    assert_eq!(arrays_to_hash(&vec![big, next]), Err(TableError::Overflow));
    let fits = ints(DataType::Int64, &some(&[0, (1i128 << 32) - 1]));
    let next = ints(DataType::Int64, &some(&[0, 1]));
    assert_eq!(
        arrays_to_hash(&vec![fits, next]),
        Ok(vec![Some(0u64), Some(((1u64 << 32) - 1) * ((1u64 << 32) - 1) + 1)])
    );
    assert_eq!(arrays_to_hash(&vec![]), Err(TableError::KeyTypeMismatch));
}

#[test]
fn groupby_test_indexes_the_composite_keys_of_each_chunk() {
    let idx = groupby_many_test(&vec![
        ints(DataType::Int32, &some(&[0, 1, 0, 1, 0])),
        ints(DataType::Int32, &some(&[0, 0, 1, 1, 0])),
    ])
    .unwrap();
    assert_eq!(idx.len(), 3);
    assert_eq!(idx.get(&Some(0)), Some(&vec![0u32, 4]));
    assert_eq!(idx.get(&Some(1)), Some(&vec![1u32, 2]));
    assert_eq!(idx.get(&Some(2)), Some(&vec![3u32]));

    let fields = vec![
        Field::new("a".to_string(), DataType::Int32, true),
        Field::new("b".to_string(), DataType::Int32, true),
    ];
    let chunk = |a: &[i128], b: &[i128]| {
        Chunk::new(vec![ints(DataType::Int32, &some(a)), ints(DataType::Int32, &some(b))]).unwrap()
    };
    let t = Table::new(fields, vec![chunk(&[3, 3], &[1, 2]), chunk(&[8], &[8])]).unwrap();
    let maps = t.groupby_test(&vec!["a".to_string(), "b".to_string()]).unwrap();
    assert_eq!(maps.len(), 2);
    assert_eq!(maps[0].get(&Some(0)), Some(&vec![0u32]));
    assert_eq!(maps[0].get(&Some(1)), Some(&vec![1u32]));
    assert_eq!(maps[1].get(&Some(0)), Some(&vec![0u32]));
    assert_eq!(
        t.groupby_test(&vec!["c".to_string()]).err(),
        Some(TableError::ColumnNotFound("c".to_string()))
    );
}

#[test]
fn reduced_keys_stand_for_tuples() {
    let one = arrays_to_array(&vec![ints(DataType::Int16, &[Some(4), None, Some(4)])]).unwrap();
    assert_eq!(one, vec![Some(4), None, Some(4)]);
    let two = arrays_to_array(&vec![
        ints(DataType::Int16, &[Some(4), None, Some(4), None, Some(4)]),
        ints(DataType::Int64, &[Some(1), Some(1), Some(2), Some(1), Some(1)]),
    ])
    .unwrap();
    assert_eq!(two, vec![Some(0), Some(1), Some(2), Some(1), Some(0)]);
    assert_eq!(arrays_to_array(&vec![]), Err(TableError::KeyTypeMismatch));
    let idx = arrays_to_idx(&vec![ints(DataType::Int16, &[Some(4), None, Some(4)])]).unwrap();
    assert_eq!(idx.get(&Some(4)), Some(2));
    assert_eq!(idx.get(&None), Some(1));
}

#[test]
fn joint_keys_compare_across_the_sides() {
    let left = vec![
        ints(DataType::Int32, &some(&[1, 1, 2])),
        ints(DataType::Int32, &some(&[10, 20, 10])),
    ];
    let right = vec![
        ints(DataType::Int32, &some(&[2, 1])),
        ints(DataType::Int32, &some(&[10, 30])),
    ];
    let (lk, rk) = joint_keys(&left, &right).unwrap();
    assert_eq!(lk.len(), 3);
    assert_eq!(rk.len(), 2);
    assert_eq!(lk[2], rk[0]);
    assert_ne!(lk[0], rk[1]);
    assert_ne!(lk[0], lk[1]);
    let other = vec![
        ints(DataType::Int32, &some(&[2, 1])),
        ints(DataType::Int64, &some(&[10, 30])),
    ];
    assert_eq!(joint_keys(&left, &other), Err(TableError::KeyTypeMismatch));
    assert_eq!(joint_keys(&left, &vec![]), Err(TableError::KeyTypeMismatch));
}

#[test]
fn merge_and_delete_arrays_list_the_surviving_rows() {
    let left = vec![ints(DataType::Int64, &[Some(1), Some(2), None, Some(4), Some(2)])];
    let right = vec![ints(DataType::Int64, &[Some(2), Some(9)])];
    assert_eq!(delete_arrays(&left, &right), Ok(vec![0u32, 2, 3]));
    assert_eq!(merge_arrays(&left, &right), Ok((vec![0u32, 2, 3], vec![0u32, 1])));
    let nulls = vec![ints(DataType::Int64, &[None])];
    assert_eq!(delete_arrays(&left, &nulls), Ok(vec![0u32, 1, 3, 4]));
    let none = vec![ints(DataType::Int64, &[])];
    assert_eq!(delete_arrays(&left, &none), Ok(vec![0u32, 1, 2, 3, 4]));
    assert_eq!(delete_arrays(&none, &left), Ok(vec![]));
}

#[test]
fn absent_keys_are_collected_over_all_stretches_in_order() {
    let n: usize = 1_000;
    let keys: Vec<Key> = (0..n).map(|i| Some((i % 10) as i128)).collect();
    let held: Vec<Key> = (0..9).map(|i| Some(i as i128)).collect();
    let index = hashmap_primitive_to_idx(&held);
    let absent = keys_absent(&keys, &index);
    let expected: Vec<u32> = (0..n as u32).filter(|i| i % 10 == 9).collect();
    assert_eq!(absent, expected);
}

#[test]
fn join_arrays_indexes_the_smaller_side() {
    let big = vec![ints(DataType::Int64, &some(&[5, 6, 5, 7]))];
    let small = vec![ints(DataType::Int64, &some(&[5, 7, 5]))];
    let (b, s) = join_arrays(&big, &small).unwrap();
    assert_eq!(b, vec![0u32, 0, 2, 2, 3]);
    assert_eq!(s, vec![0u32, 2, 0, 2, 1]);
    let (s2, b2) = join_arrays(&small, &big).unwrap();
    assert_eq!((b2, s2), (b, s));
    let probe: Vec<Key> = vec![Some(1), None, Some(3)];
    let build = hashmap_primitive_to_idxs(&vec![None, Some(1), None]);
    assert_eq!(join_probe(&probe, &build), (vec![0u32, 1, 1], vec![1u32, 0, 2]));
}
