use chunked_table::chunks::{chunk_head, chunk_take, Chunk};
use chunked_table::column::ColumnArray;
use chunked_table::datatypes::{Cell, DataType, Field, TableError};
use chunked_table::factory::create_random_table;
use chunked_table::table::Table;

fn ints(data_type: DataType, values: &[Option<i128>]) -> ColumnArray {
    let cells = values
        .iter()
        .map(|v| match v {
            Some(x) => Cell::Int(*x),
            None => Cell::Null,
        })
        .collect();
    ColumnArray::new(data_type, cells).unwrap()
}

fn kv_fields() -> Vec<Field> {
    vec![
        Field::new("k".to_string(), DataType::Int64, true),
        Field::new("v".to_string(), DataType::Int32, true),
    ]
}

fn kv_chunk(keys: &[i128], values: &[i128]) -> Chunk {
    let k: Vec<Option<i128>> = keys.iter().map(|x| Some(*x)).collect();
    let v: Vec<Option<i128>> = values.iter().map(|x| Some(*x)).collect();
    Chunk::new(vec![ints(DataType::Int64, &k), ints(DataType::Int32, &v)]).unwrap()
}

fn kv_table(keys: &[i128], values: &[i128]) -> Table {
    Table::new(kv_fields(), vec![kv_chunk(keys, values)]).unwrap()
}

fn rows_of(table: &Table) -> Vec<(i128, i128)> {
    let mut rows = Vec::new();
    for chunk in &table.chunks {
        for r in 0..chunk.len() {
            let k = match &chunk.columns[0].cells[r] {
                Cell::Int(x) => *x,
                _ => panic!("null key"),
            };
            let v = match &chunk.columns[1].cells[r] {
                Cell::Int(x) => *x,
                _ => panic!("null value"),
            };
            rows.push((k, v));
        }
    }
    rows
}

fn three_by_three() -> Table {
    Table::new(
        kv_fields(),
        vec![
            kv_chunk(&[0, 1, 2], &[0, 10, 20]),
            kv_chunk(&[3, 4, 5], &[30, 40, 50]),
            kv_chunk(&[6, 7, 8], &[60, 70, 80]),
        ],
    )
    .unwrap()
}

#[test]
fn test_append() {
    let mut t1 = create_random_table(2);
    let mut t2 = create_random_table(1);
    let len = &t1.num_rows() + &t2.num_rows();
    assert!(t1.append(&mut t2).is_ok());
    assert_eq!(&t1.num_rows(), &len);
}

#[test]
fn factory_rows_follow_their_number() {
    let t = create_random_table(1);
    assert_eq!(t.num_rows(), 100_000);
    assert_eq!(t.columns().len(), 4);
    let chunk = &t.chunks[0];
    assert_eq!(chunk.columns[0].cells[12_345], Cell::Int(5));
    assert_eq!(chunk.columns[1].cells[12_345], Cell::Int(12_345));
    assert_eq!(chunk.columns[2].cells[12_345], Cell::Text("12345".to_string()));
    assert_eq!(chunk.columns[3].cells[99_999], Cell::Int(99_999));
    assert_eq!(chunk.columns[2].cells[0], Cell::Text("0".to_string()));
}

#[test]
fn num_rows_is_the_sum_of_the_chunk_lengths() {
    let t = three_by_three();
    assert_eq!(t.num_rows(), 9);
    assert_eq!(t.len(), 9);
    let empty = Table::new(kv_fields(), vec![]).unwrap();
    assert_eq!(empty.num_rows(), 0);
}

#[test]
fn column_takes_cells_beyond_their_type_for_a_mismatch() {
    let r = ColumnArray::new(DataType::Int8, vec![Cell::Int(127), Cell::Int(128)]);
    assert_eq!(r, Err(TableError::SchemaMismatch));
    let r = ColumnArray::new(DataType::Int32, vec![Cell::Text("x".to_string())]);
    assert_eq!(r, Err(TableError::SchemaMismatch));
    let r = ColumnArray::new(DataType::Utf8, vec![Cell::Text("x".to_string()), Cell::Null]);
    assert!(r.is_ok());
    let r = ColumnArray::new(DataType::UInt64, vec![Cell::Int(-1)]);
    assert_eq!(r, Err(TableError::SchemaMismatch));
    let r = ColumnArray::new(DataType::UInt64, vec![Cell::Int(u64::MAX as i128)]);
    assert!(r.is_ok());
}

#[test]
fn chunk_refuses_columns_of_unequal_length() {
    let a = ints(DataType::Int32, &[Some(1), Some(2)]);
    let b = ints(DataType::Int32, &[Some(1)]);
    assert_eq!(Chunk::new(vec![a, b]), Err(TableError::SchemaMismatch));
}

#[test]
fn table_refuses_chunks_that_do_not_fit_and_repeated_names() {
    let chunk = Chunk::new(vec![ints(DataType::Int32, &[Some(1)])]).unwrap();
    assert_eq!(Table::new(kv_fields(), vec![chunk]), Err(TableError::SchemaMismatch));
    let fields = vec![
        Field::new("k".to_string(), DataType::Int64, true),
        Field::new("k".to_string(), DataType::Int32, true),
    ];
    assert_eq!(Table::new(fields, vec![]), Err(TableError::SchemaMismatch));
}

#[test]
fn slice_is_a_window_and_refuses_to_leave_the_column() {
    let c = ints(DataType::Int32, &[Some(10), None, Some(30), Some(40)]);
    let s = c.slice(1, 2).unwrap();
    assert_eq!(s.cells, vec![Cell::Null, Cell::Int(30)]);
    assert_eq!(s.data_type, DataType::Int32);
    assert_eq!(c.slice(4, 0).unwrap().cells, vec![]);
    assert_eq!(c.slice(3, 2), Err(TableError::IndexOutOfRange));
    assert_eq!(c.slice(5, 0), Err(TableError::IndexOutOfRange));
}

#[test]
fn take_gathers_in_the_order_of_the_indices() {
    let c = ints(DataType::Int32, &[Some(10), None, Some(30)]);
    let t = c.take(&vec![2, 0, 0, 1]).unwrap();
    assert_eq!(t.cells, vec![Cell::Int(30), Cell::Int(10), Cell::Int(10), Cell::Null]);
    assert_eq!(c.take(&vec![0, 3]), Err(TableError::IndexOutOfRange));
    assert_eq!(c.take(&vec![]).unwrap().cells, vec![]);
}

#[test]
fn chunk_take_and_head_keep_the_columns_aligned() {
    let chunk = kv_chunk(&[1, 2, 3], &[10, 20, 30]);
    let taken = chunk_take(&chunk, &vec![2, 1]).unwrap();
    assert_eq!(taken, kv_chunk(&[3, 2], &[30, 20]));
    assert_eq!(chunk_take(&chunk, &vec![3]), Err(TableError::IndexOutOfRange));
    assert_eq!(chunk_head(&chunk, &2), kv_chunk(&[1, 2], &[10, 20]));
    assert_eq!(chunk_head(&chunk, &7), chunk);
    assert_eq!(chunk_head(&chunk, &0).len(), 0);
}

#[test]
fn head_cuts_the_chunk_that_uses_the_budget_up() {
    let t = three_by_three();
    let h = t.head(&4);
    let sizes: Vec<usize> = h.chunks.iter().map(|c| c.len()).collect();
    assert_eq!(sizes, vec![3, 1]);
    assert_eq!(h.num_rows(), 4);
    assert_eq!(rows_of(&h), vec![(0, 0), (1, 10), (2, 20), (3, 30)]);
}

#[test]
fn head_has_the_smaller_of_the_budget_and_the_rows() {
    let t = three_by_three();
    assert_eq!(t.head(&100).num_rows(), 9);
    assert_eq!(t.head(&100).chunks.len(), 3);
    assert_eq!(t.head(&9).num_rows(), 9);
    assert_eq!(t.head(&3).chunks.len(), 1);
    assert_eq!(t.head(&3).num_rows(), 3);
    let none = t.head(&0);
    assert_eq!(none.num_rows(), 0);
    assert_eq!(none.chunks.len(), 1);
}

#[test]
fn table_take_makes_one_chunk_of_the_rows_asked_for() {
    let t = three_by_three();
    let taken = t.take(vec![8, 0, 4, 4]).unwrap();
    assert_eq!(taken.chunks.len(), 1);
    assert_eq!(taken.num_rows(), 4);
    assert_eq!(rows_of(&taken), vec![(8, 80), (0, 0), (4, 40), (4, 40)]);
    assert_eq!(t.take(vec![9]), Err(TableError::IndexOutOfRange));
    let single = kv_table(&[1, 2], &[10, 20]);
    assert_eq!(rows_of(&single.take(vec![1, 0]).unwrap()), vec![(2, 20), (1, 10)]);
}

#[test]
fn column_lays_the_chunks_end_to_end() {
    let t = three_by_three();
    let v = t.column(&"v".to_string()).unwrap();
    assert_eq!(v.data_type, DataType::Int32);
    assert_eq!(v.len(), 9);
    assert_eq!(v.cells[4], Cell::Int(40));
    assert_eq!(t.position(&"v".to_string()), Ok(1));
    assert_eq!(
        t.column(&"w".to_string()),
        Err(TableError::ColumnNotFound("w".to_string()))
    );
}

#[test]
fn append_refuses_other_fields_and_leaves_both_tables_alone() {
    let mut a = kv_table(&[1], &[10]);
    let fields = vec![
        Field::new("k".to_string(), DataType::Int64, true),
        Field::new("v".to_string(), DataType::Int64, true),
    ];
    let chunk = Chunk::new(vec![
        ints(DataType::Int64, &[Some(2)]),
        ints(DataType::Int64, &[Some(20)]),
    ])
    .unwrap();
    let mut b = Table::new(fields, vec![chunk]).unwrap();
    assert_eq!(a.append(&mut b), Err(TableError::SchemaMismatch));
    assert_eq!(a.num_rows(), 1);
    assert_eq!(b.num_rows(), 1);
    assert_eq!(a.table_eq(&b), Err(TableError::SchemaMismatch));
}

#[test]
fn append_moves_the_chunks_over() {
    let mut a = kv_table(&[1, 2], &[10, 20]);
    let mut b = kv_table(&[3], &[30]);
    assert_eq!(a.append(&mut b), Ok(()));
    assert_eq!(a.num_rows(), 3);
    assert_eq!(a.chunks.len(), 2);
    assert_eq!(b.chunks.len(), 0);
    assert_eq!(rows_of(&a), vec![(1, 10), (2, 20), (3, 30)]);
}

#[test]
fn upsert_keeps_unclaimed_left_rows_before_all_right_rows() {
    let left = kv_table(&[1, 2, 3, 4], &[10, 20, 30, 40]);
    let right = kv_table(&[3, 4, 5], &[300, 400, 500]);
    let out = left.upsert(&right, &vec!["k".to_string()]).unwrap();
    assert_eq!(out.num_rows(), 5);
    let rows = rows_of(&out);
    assert_eq!(&rows[..2], &[(1, 10), (2, 20)]);
    let mut rest = rows[2..].to_vec();
    rest.sort();
    assert_eq!(rest, vec![(3, 300), (4, 400), (5, 500)]);
    assert_eq!(rows, vec![(1, 10), (2, 20), (3, 300), (4, 400), (5, 500)]);
}

#[test]
fn upsert_of_key_unique_tables_is_key_unique() {
    let left = kv_table(&[1, 2, 3, 4], &[10, 20, 30, 40]);
    let right = kv_table(&[4, 9, 1], &[400, 900, 100]);
    let out = left.upsert(&right, &vec!["k".to_string()]).unwrap();
    let mut keys: Vec<i128> = rows_of(&out).iter().map(|r| r.0).collect();
    let n = keys.len();
    keys.sort();
    keys.dedup();
    assert_eq!(keys.len(), n);
    assert_eq!(keys, vec![1, 2, 3, 4, 9]);
}

#[test]
fn delete_drops_the_rows_whose_key_the_right_side_holds() {
    let left = kv_table(&[1, 2, 3, 4], &[10, 20, 30, 40]);
    let right = kv_table(&[2, 4], &[0, 0]);
    let out = left.delete(&right, &vec!["k".to_string()]).unwrap();
    assert_eq!(out.num_rows(), 2);
    assert_eq!(rows_of(&out), vec![(1, 10), (3, 30)]);
}

#[test]
fn delete_twice_is_delete_once() {
    let left = three_by_three();
    let right = kv_table(&[2, 4, 4, 11], &[0, 0, 0, 0]);
    let columns = vec!["k".to_string()];
    let once = left.delete(&right, &columns).unwrap();
    let twice = once.delete(&right, &columns).unwrap();
    assert_eq!(rows_of(&once), rows_of(&twice));
    assert_eq!(rows_of(&once).len(), 7);
}

#[test]
fn delete_by_two_columns_compares_whole_tuples() {
    let left = kv_table(&[1, 1, 2, 2], &[10, 20, 10, 20]);
    let right = kv_table(&[1, 2], &[20, 10]);
    let columns = vec!["k".to_string(), "v".to_string()];
    let out = left.delete(&right, &columns).unwrap();
    assert_eq!(rows_of(&out), vec![(1, 10), (2, 20)]);
}

#[test]
fn relating_tables_reports_why_it_cannot() {
    let left = kv_table(&[1], &[10]);
    let right = kv_table(&[1], &[10]);
    assert_eq!(
        left.delete(&right, &vec!["x".to_string()]),
        Err(TableError::ColumnNotFound("x".to_string()))
    );
    assert_eq!(left.delete(&right, &vec![]), Err(TableError::KeyTypeMismatch));
    let fields = vec![Field::new("k".to_string(), DataType::Int64, true)];
    let other = Table::new(
        fields,
        vec![Chunk::new(vec![ints(DataType::Int64, &[Some(1)])]).unwrap()],
    )
    .unwrap();
    assert_eq!(
        left.upsert(&other, &vec!["k".to_string()]),
        Err(TableError::SchemaMismatch)
    );
    let text = |v: &str| {
        let fields = vec![Field::new("s".to_string(), DataType::Utf8, true)];
        let col = ColumnArray::new(DataType::Utf8, vec![Cell::Text(v.to_string())]).unwrap();
        Table::new(fields, vec![Chunk::new(vec![col]).unwrap()]).unwrap()
    };
    assert_eq!(
        text("a").join(&text("b"), &vec!["s".to_string()]),
        Err(TableError::UnsupportedKeyType(DataType::Utf8))
    );
}

#[test]
fn join_pairs_every_match_in_the_order_of_the_probing_side() {
    let left = kv_table(&[1, 2, 2, 3], &[0, 0, 0, 0]);
    let right = kv_table(&[2, 3, 2], &[0, 0, 0]);
    let (l, r) = left.join(&right, &vec!["k".to_string()]).unwrap();
    let pairs: Vec<(u32, u32)> = l.iter().cloned().zip(r.iter().cloned()).collect();
    assert_eq!(pairs, vec![(1, 0), (1, 2), (2, 0), (2, 2), (3, 1)]);
    let (r2, l2) = right.join(&left, &vec!["k".to_string()]).unwrap();
    let swapped: Vec<(u32, u32)> = l2.iter().cloned().zip(r2.iter().cloned()).collect();
    assert_eq!(swapped, pairs);
}

#[test]
fn join_with_no_common_key_is_empty() {
    let left = kv_table(&[1, 2], &[0, 0]);
    let right = kv_table(&[3], &[0]);
    let (l, r) = left.join(&right, &vec!["k".to_string()]).unwrap();
    assert_eq!(l.len(), 0);
    assert_eq!(r.len(), 0);
}
