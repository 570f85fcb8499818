use chunked_table::chunks::Chunk;
use chunked_table::column::{ColumnArray, Key};
use chunked_table::dataset::DatasetPart;
use chunked_table::datatypes::{Cell, DataType, Field, TableError};
use chunked_table::groupby::{
    array_take_idxs, array_to_idxs, groupby_keys, groupby_many, hash_group_merge,
};
use chunked_table::keyed::{hashmap_to_str, hashmaps_merge, KeyedChunk};
use chunked_table::parts::chunk_groupby;
use chunked_table::table::Table;

fn ints(data_type: DataType, values: &[Option<i128>]) -> ColumnArray {
    let cells = values
        .iter()
        .map(|v| match v {
            Some(x) => Cell::Int(*x),
            None => Cell::Null,
        })
        .collect();
    ColumnArray::new(data_type, cells).unwrap()
}

fn some(values: &[i128]) -> Vec<Option<i128>> {
    values.iter().map(|x| Some(*x)).collect()
}

fn table_of(names: &[&str], chunks: Vec<Vec<Vec<Option<i128>>>>) -> Table {
    let fields = names
        .iter()
        .map(|n| Field::new(n.to_string(), DataType::Int32, true))
        .collect();
    let chunks = chunks
        .into_iter()
        .map(|cols| {
            Chunk::new(cols.iter().map(|c| ints(DataType::Int32, c)).collect()).unwrap()
        })
        .collect();
    Table::new(fields, chunks).unwrap()
}

fn label(part: &DatasetPart, name: &str) -> String {
    part.filter(&name.to_string()).unwrap().clone()
}

fn column(part: &DatasetPart, c: usize) -> Vec<Cell> {
    let mut cells = Vec::new();
    for chunk in &part.table.as_ref().unwrap().chunks {
        cells.extend(chunk.columns[c].cells.iter().cloned());
    }
    cells
}

fn find<'a>(parts: &'a [DatasetPart], name: &str, value: &str) -> &'a DatasetPart {
    let hits: Vec<&DatasetPart> = parts.iter().filter(|p| label(p, name) == value).collect();
    assert_eq!(hits.len(), 1);
    hits[0]
}

#[test]
fn groupby_single_key_lists_the_rows_of_each_key_in_order() {
    let g = vec![1, 2, 1, 3, 2, 1];
    let row: Vec<i128> = (0..6).collect();
    let t = table_of(&["g", "row"], vec![vec![some(&g), some(&row)]]);
    let parts = t.groupby(&vec!["g".to_string()]).unwrap();
    assert_eq!(parts.len(), 3);
    let counts: Vec<(String, usize)> = ["1", "2", "3"]
        .iter()
        .map(|v| (v.to_string(), find(&parts, "g", v).table.as_ref().unwrap().num_rows()))
        .collect();
    assert_eq!(
        counts,
        vec![("1".to_string(), 3), ("2".to_string(), 2), ("3".to_string(), 1)]
    );
    let ones = find(&parts, "g", "1");
    assert_eq!(column(ones, 1), vec![Cell::Int(0), Cell::Int(2), Cell::Int(5)]);
    assert_eq!(column(ones, 0), vec![Cell::Int(1), Cell::Int(1), Cell::Int(1)]);
    assert!(ones.path.is_none());
}

#[test]
fn groupby_two_keys_tells_every_pair_apart() {
    let t = table_of(
        &["a", "b"],
        vec![vec![some(&[0, 1, 0, 1]), some(&[0, 0, 1, 1])]],
    );
    let parts = t.groupby(&vec!["a".to_string(), "b".to_string()]).unwrap();
    assert_eq!(parts.len(), 4);
    for part in &parts {
        assert_eq!(part.table.as_ref().unwrap().num_rows(), 1);
        assert_eq!(part.filters.as_ref().unwrap().len(), 2);
    }
    let mut labels: Vec<(String, String)> =
        parts.iter().map(|p| (label(p, "a"), label(p, "b"))).collect();
    labels.sort();
    let expected: Vec<(String, String)> = [("0", "0"), ("0", "1"), ("1", "0"), ("1", "1")]
        .iter()
        .map(|(a, b)| (a.to_string(), b.to_string()))
        .collect();
    assert_eq!(labels, expected);
}

#[test]
fn groupby_covers_the_table_and_its_parts_are_disjoint() {
    let t = table_of(
        &["g", "row"],
        vec![
            vec![some(&[5, 7, 5]), some(&[0, 1, 2])],
            vec![some(&[7, 7]), some(&[3, 4])],
            vec![some(&[9, 5, 9, 9]), some(&[5, 6, 7, 8])],
        ],
    );
    let parts = t.groupby(&vec!["g".to_string()]).unwrap();
    let total: usize = parts.iter().map(|p| p.table.as_ref().unwrap().num_rows()).sum();
    assert_eq!(total, t.num_rows());
    let mut seen: Vec<Cell> = parts.iter().flat_map(|p| column(p, 1)).collect();
    seen.sort_by_key(|c| match c {
        Cell::Int(x) => *x,
        _ => -1,
    });
    let all: Vec<Cell> = (0..9).map(Cell::Int).collect();
    assert_eq!(seen, all);
}

#[test]
fn groupby_part_has_one_chunk_per_chunk_that_holds_its_key() {
    let t = table_of(
        &["g", "row"],
        vec![
            vec![some(&[5, 7, 5]), some(&[0, 1, 2])],
            vec![some(&[7, 7]), some(&[3, 4])],
            vec![some(&[9, 5, 9, 9]), some(&[5, 6, 7, 8])],
        ],
    );
    let parts = t.groupby(&vec!["g".to_string()]).unwrap();
    assert_eq!(parts.len(), 3);
    let fives = find(&parts, "g", "5").table.as_ref().unwrap();
    let sizes: Vec<usize> = fives.chunks.iter().map(|c| c.len()).collect();
    assert_eq!(sizes, vec![2, 1]);
    assert_eq!(
        column(find(&parts, "g", "5"), 1),
        vec![Cell::Int(0), Cell::Int(2), Cell::Int(6)]
    );
    let sevens = find(&parts, "g", "7").table.as_ref().unwrap();
    let sizes: Vec<usize> = sevens.chunks.iter().map(|c| c.len()).collect();
    assert_eq!(sizes, vec![1, 2]);
    let nines = find(&parts, "g", "9").table.as_ref().unwrap();
    assert_eq!(nines.chunks.len(), 1);
    assert_eq!(nines.num_rows(), 3);
}

#[test]
fn groupby_groups_nulls_under_the_empty_label() {
    let t = table_of(
        &["g", "row"],
        vec![vec![vec![None, Some(-3), None], some(&[0, 1, 2])]],
    );
    let parts = t.groupby(&vec!["g".to_string()]).unwrap();
    assert_eq!(parts.len(), 2);
    assert_eq!(column(find(&parts, "g", ""), 1), vec![Cell::Int(0), Cell::Int(2)]);
    assert_eq!(column(find(&parts, "g", "-3"), 1), vec![Cell::Int(1)]);
}

#[test]
fn groupby_reports_why_it_cannot() {
    let t = table_of(&["g"], vec![vec![some(&[1])]]);
    assert_eq!(
        t.groupby(&vec!["h".to_string()]).err(),
        Some(TableError::ColumnNotFound("h".to_string()))
    );
    let fields = vec![Field::new("s".to_string(), DataType::Float64, true)];
    let col = ColumnArray::new(DataType::Float64, vec![Cell::Int(0)]).unwrap();
    let f = Table::new(fields, vec![Chunk::new(vec![col]).unwrap()]).unwrap();
    assert_eq!(
        f.groupby(&vec!["s".to_string()]).err(),
        Some(TableError::UnsupportedKeyType(DataType::Float64))
    );
}

#[test]
fn groupby_by_no_column_is_the_whole_table() {
    let t = table_of(&["g"], vec![vec![some(&[1, 2])], vec![some(&[3])]]);
    let parts = t.groupby(&vec![]).unwrap();
    assert_eq!(parts.len(), 1);
    assert_eq!(parts[0].table.as_ref().unwrap().num_rows(), 3);
    assert_eq!(parts[0].filters.as_ref().unwrap().len(), 0);
    let none = table_of(&["g"], vec![]);
    assert_eq!(none.groupby(&vec!["g".to_string()]).unwrap().len(), 0);
}

#[test]
fn to_dataset_without_partitions_is_one_part_under_no_filter() {
    let t = table_of(&["g"], vec![vec![some(&[1, 2])], vec![some(&[3])]]);
    let d = t.to_dataset(None, None, None).unwrap();
    assert!(!d.is_partitioned());
    assert!(!d.is_bucketized());
    assert_eq!(d.parts.len(), 1);
    assert_eq!(d.parts[0].table.as_ref().unwrap(), &t);
    assert_eq!(d.parts[0].filters.as_ref().unwrap().len(), 0);
    let p = t.to_dataset(Some(vec!["g".to_string()]), Some(vec![]), None).unwrap();
    assert!(p.is_partitioned());
    assert!(p.is_bucketized());
    assert_eq!(p.parts.len(), 3);
}

#[test]
fn hash_group_merge_names_rows_by_the_first_row_like_them() {
    let keys: Vec<Key> = vec![Some(4), Some(4), None, Some(4), None];
    let ids: Vec<u32> = vec![0, 0, 0, 3, 0];
    assert_eq!(hash_group_merge(&keys, &ids), vec![0, 0, 2, 3, 2]);
}

#[test]
fn groupby_keys_partitions_rows_by_tuple() {
    let cols: Vec<Vec<Key>> = vec![
        vec![Some(1), Some(1), Some(2), Some(1)],
        vec![Some(-1), None, Some(-1), Some(-1)],
    ];
    let mut groups: Vec<(Vec<Key>, Vec<u32>)> =
        groupby_keys(&cols, 4).into_iter().map(|g| (g.key, g.rows)).collect();
    groups.sort_by_key(|g| g.1[0]);
    assert_eq!(
        groups,
        vec![
            (vec![Some(1), Some(-1)], vec![0, 3]),
            (vec![Some(1), None], vec![1]),
            (vec![Some(2), Some(-1)], vec![2]),
        ]
    );
}

#[test]
fn groupby_many_refuses_text_columns() {
    let text = ColumnArray::new(DataType::Utf8, vec![Cell::Text("a".to_string())]).unwrap();
    assert_eq!(
        groupby_many(&vec![ints(DataType::Int8, &[Some(1)]), text]),
        Err(TableError::UnsupportedKeyType(DataType::Utf8))
    );
    let groups = groupby_many(&vec![ints(DataType::UInt64, &[Some(u64::MAX as i128), Some(0)])])
        .unwrap();
    assert_eq!(groups.len(), 2);
}

#[test]
fn array_to_idxs_dispatches_on_the_type() {
    for dt in [
        DataType::Int8,
        DataType::Int16,
        DataType::Int32,
        DataType::Int64,
        DataType::UInt8,
        DataType::UInt16,
        DataType::UInt32,
        DataType::UInt64,
    ] {
        let idx = array_to_idxs(&ints(dt, &[Some(7), None, Some(7)])).unwrap();
        assert_eq!(idx.get(&Some(7)), Some(&vec![0u32, 2]));
        assert_eq!(idx.get(&None), Some(&vec![1u32]));
    }
    for dt in [DataType::Float32, DataType::Float64] {
        let r = array_to_idxs(&ints(dt, &[Some(7)]));
        assert_eq!(r.err(), Some(TableError::UnsupportedKeyType(dt)));
    }
    let text = ColumnArray::new(DataType::Utf8, vec![]).unwrap();
    assert_eq!(
        array_to_idxs(&text).err(),
        Some(TableError::UnsupportedKeyType(DataType::Utf8))
    );
}

#[test]
fn chunk_groupby_and_merge_gather_sub_chunks_by_key() {
    let a = Chunk::new(vec![ints(DataType::Int32, &some(&[1, 2, 1]))]).unwrap();
    let b = Chunk::new(vec![ints(DataType::Int32, &some(&[2, 3]))]).unwrap();
    let cs = vec![0usize];
    let maps: Vec<Vec<KeyedChunk>> = vec![chunk_groupby(&a, &cs), chunk_groupby(&b, &cs)];
    assert_eq!(maps[0].len(), 2);
    let merged = hashmaps_merge(maps, 1);
    assert_eq!(merged.len(), 3);
    let sizes = |k: i128| -> Vec<usize> {
        let hit = merged.iter().find(|m| m.key == vec![Some(k)]).unwrap();
        hit.chunks.iter().map(|c| c.len()).collect()
    };
    assert_eq!(sizes(1), vec![2]);
    assert_eq!(sizes(2), vec![1, 1]);
    assert_eq!(sizes(3), vec![1]);
}

#[test]
fn hashmap_to_str_labels_keys_in_decimal() {
    let idx = array_to_idxs(&ints(
        DataType::Int64,
        &[Some(-120), None, Some(0), Some(i64::MAX as i128), Some(-120)],
    ))
    .unwrap();
    let labelled = hashmap_to_str(&idx);
    assert_eq!(
        labelled,
        vec![
            ("-120".to_string(), vec![0u32, 4]),
            ("".to_string(), vec![1u32]),
            ("0".to_string(), vec![2u32]),
            ("9223372036854775807".to_string(), vec![3u32]),
        ]
    );
}

#[test]
fn array_take_idxs_gathers_the_rows_of_a_group() {
    let array = ints(DataType::Int32, &[Some(10), None, Some(30), Some(40)]);
    let idx = array_to_idxs(&ints(DataType::Int8, &some(&[1, 2, 1, 1]))).unwrap();
    let rows = idx.get(&Some(1)).unwrap();
    let taken = array_take_idxs(&array, rows).unwrap();
    assert_eq!(taken.cells, vec![Cell::Int(10), Cell::Int(30), Cell::Int(40)]);
    assert_eq!(
        array_take_idxs(&array, &vec![4]),
        Err(TableError::IndexOutOfRange)
    );
}
