use std::collections::BTreeMap;

use chunked_table::chunks::Chunk;
use chunked_table::column::{ColumnArray, Key};
use chunked_table::composite::{array_to_u64, arrays_to_hash};
use chunked_table::datatypes::{Cell, DataType, Field};
use chunked_table::filter::{filter_array, FilterPredicate};
use chunked_table::groupby::groupby_keys;
use chunked_table::hash_index::hashmap_primitive_to_idxs_par;
use chunked_table::last_index::hashmap_primitive_to_idx_par;
use chunked_table::join::join_arrays;
use chunked_table::merge::delete_arrays;
use chunked_table::table::Table;

/// A small linear congruential generator: the same numbers on every run.
struct Numbers(u64);

impl Numbers {
    fn next(&mut self) -> u64 {
        self.0 = self.0.wrapping_mul(6364136223846793005).wrapping_add(1442695040888963407);
        self.0 >> 33
    }

    fn key(&mut self, spread: u64) -> Option<i128> {
        let x = self.next();
        if x % 17 == 0 {
            None
        } else {
            Some((x % spread) as i128 - (spread / 2) as i128)
        }
    }

    fn keys(&mut self, n: usize, spread: u64) -> Vec<Option<i128>> {
        (0..n).map(|_| self.key(spread)).collect()
    }
}

fn ints(data_type: DataType, values: &[Option<i128>]) -> ColumnArray {
    let cells = values
        .iter()
        .map(|v| match v {
            Some(x) => Cell::Int(*x),
            None => Cell::Null,
        })
        .collect();
    ColumnArray::new(data_type, cells).unwrap()
}

#[test]
fn long_columns_are_indexed_like_short_ones() {
    let mut numbers = Numbers(1);
    let keys: Vec<Key> = numbers.keys(60_000, 500);
    let mut expected: BTreeMap<Key, Vec<u32>> = BTreeMap::new();
    for (i, k) in keys.iter().enumerate() {
        expected.entry(*k).or_default().push(i as u32);
    }
    let idx = hashmap_primitive_to_idxs_par(&keys);
    assert_eq!(idx.len(), expected.len());
    for (k, positions) in &expected {
        assert_eq!(idx.get(k), Some(positions));
    }
    let last = hashmap_primitive_to_idx_par(&keys);
    for (k, positions) in &expected {
        assert_eq!(last.get(k), positions.last().cloned());
    }
}

#[test]
fn shifting_a_long_column_agrees_with_plain_arithmetic() {
    let mut numbers = Numbers(2);
    let values = numbers.keys(1_000, 1 << 40);
    let least = values.iter().flatten().min().cloned().unwrap();
    let expected: Vec<Option<u64>> = values.iter().map(|v| v.map(|x| (x - least) as u64)).collect();
    assert_eq!(array_to_u64(&ints(DataType::Int64, &values)), Ok(expected));
}

#[test]
fn folding_long_columns_agrees_with_plain_arithmetic() {
    let mut numbers = Numbers(3);
    let n = 777;
    let cols: Vec<Vec<Option<i128>>> = vec![
        numbers.keys(n, 1_000),
        numbers.keys(n, 50),
        numbers.keys(n, 7),
    ];
    let shifted: Vec<Vec<Option<u64>>> = cols
        .iter()
        .map(|c| {
            let least = c.iter().flatten().min().cloned().unwrap();
            c.iter().map(|v| v.map(|x| (x - least) as u64)).collect()
        })
        .collect();
    let mut expected = shifted[0].clone();
    for next in &shifted[1..] {
        let peak = expected.iter().flatten().max().cloned().unwrap_or(0);
        expected = expected
            .iter()
            .zip(next.iter())
            .map(|(c, a)| match (c, a) {
                (Some(c), Some(a)) => Some(c * peak + a),
                _ => None,
            })
            .collect();
    }
    let arrays: Vec<ColumnArray> = cols.iter().map(|c| ints(DataType::Int64, c)).collect();
    assert_eq!(arrays_to_hash(&arrays), Ok(expected));
}

#[test]
fn predicates_on_a_long_column_agree_with_plain_comparison() {
    let mut numbers = Numbers(4);
    let values = numbers.keys(1_003, 100);
    let array = ints(DataType::Int32, &values);
    let s: i64 = 3;
    let ask = |p: FilterPredicate| filter_array(&array, &p).unwrap();
    let expect = |f: &dyn Fn(i128) -> bool| -> Vec<Option<bool>> {
        values.iter().map(|v| v.map(f)).collect()
    };
    assert_eq!(ask(FilterPredicate::LessEqual(Some(s))), expect(&|v| v <= 3));
    assert_eq!(ask(FilterPredicate::Less(Some(s))), expect(&|v| v < 3));
    assert_eq!(ask(FilterPredicate::Greater(Some(s))), expect(&|v| v > 3));
    assert_eq!(ask(FilterPredicate::GreaterEqual(Some(s))), expect(&|v| v >= 3));
    assert_eq!(ask(FilterPredicate::Equal(Some(s))), expect(&|v| v == 3));
    assert_eq!(ask(FilterPredicate::NotEqual(Some(s))), expect(&|v| v != 3));
}

#[test]
fn grouping_by_tuples_agrees_with_a_sorted_map() {
    let mut numbers = Numbers(5);
    let n = 5_000;
    let cols: Vec<Vec<Key>> = vec![numbers.keys(n, 6), numbers.keys(n, 5), numbers.keys(n, 4)];
    let mut expected: BTreeMap<Vec<Key>, Vec<u32>> = BTreeMap::new();
    for p in 0..n {
        let tuple: Vec<Key> = cols.iter().map(|c| c[p]).collect();
        expected.entry(tuple).or_default().push(p as u32);
    }
    let groups = groupby_keys(&cols, n);
    assert_eq!(groups.len(), expected.len());
    for g in groups {
        assert_eq!(expected.get(&g.key), Some(&g.rows));
    }
}

#[test]
fn deleting_and_joining_agree_with_nested_loops() {
    let mut numbers = Numbers(6);
    let (n, m) = (400, 150);
    let left: Vec<Vec<Option<i128>>> = vec![numbers.keys(n, 12), numbers.keys(n, 3)];
    let right: Vec<Vec<Option<i128>>> = vec![numbers.keys(m, 12), numbers.keys(m, 3)];
    let same = |p: usize, q: usize| left[0][p] == right[0][q] && left[1][p] == right[1][q];
    let keep: Vec<u32> = (0..n)
        .filter(|p| !(0..m).any(|q| same(*p, q)))
        .map(|p| p as u32)
        .collect();
    let mut pairs: Vec<(u32, u32)> = Vec::new();
    for p in 0..n {
        for q in 0..m {
            if same(p, q) {
                pairs.push((p as u32, q as u32));
            }
        }
    }
    let l: Vec<ColumnArray> = left.iter().map(|c| ints(DataType::Int16, c)).collect();
    let r: Vec<ColumnArray> = right.iter().map(|c| ints(DataType::Int16, c)).collect();
    assert_eq!(delete_arrays(&l, &r), Ok(keep));
    let (a, b) = join_arrays(&l, &r).unwrap();
    let joined: Vec<(u32, u32)> = a.into_iter().zip(b.into_iter()).collect();
    assert_eq!(joined, pairs);
}

#[test]
fn grouping_a_table_of_many_chunks_loses_no_row() {
    let mut numbers = Numbers(7);
    let fields = vec![
        Field::new("g".to_string(), DataType::Int32, true),
        Field::new("row".to_string(), DataType::Int64, false),
    ];
    let mut chunks = Vec::new();
    let mut keys = Vec::new();
    let mut at: i128 = 0;
    for c in 0..9 {
        let n = 50 + 37 * c;
        let g = numbers.keys(n, 9);
        let row: Vec<Option<i128>> = (at..at + n as i128).map(Some).collect();
        at += n as i128;
        keys.extend(g.iter().cloned());
        chunks.push(Chunk::new(vec![ints(DataType::Int32, &g), ints(DataType::Int64, &row)]).unwrap());
    }
    let table = Table::new(fields, chunks).unwrap();
    let parts = table.groupby(&vec!["g".to_string()]).unwrap();
    let mut expected: BTreeMap<Key, Vec<Cell>> = BTreeMap::new();
    for (p, k) in keys.iter().enumerate() {
        expected.entry(*k).or_default().push(Cell::Int(p as i128));
    }
    assert_eq!(parts.len(), expected.len());
    for part in &parts {
        let t = part.table.as_ref().unwrap();
        let mut g = Vec::new();
        let mut rows = Vec::new();
        for chunk in &t.chunks {
            assert!(chunk.len() > 0);
            g.extend(chunk.columns[0].cells.iter().cloned());
            rows.extend(chunk.columns[1].cells.iter().cloned());
        }
        let key = match &g[0] {
            Cell::Int(x) => Some(*x),
            _ => None,
        };
        assert!(g.iter().all(|c| *c == g[0]));
        assert_eq!(expected.get(&key), Some(&rows));
        let label = match key {
            Some(x) => x.to_string(),
            None => "".to_string(),
        };
        assert_eq!(part.filter(&"g".to_string()), Some(&label));
    }
}
