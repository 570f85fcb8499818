use chunked_table::chunks::Chunk;
use chunked_table::column::ColumnArray;
use chunked_table::dataset::{
    format_extension, Compression, Dataset, DatasetPart, DatasetStorage, Format,
};
use chunked_table::labels::{key_to_string, nat_to_string};
use chunked_table::paths::{filters_from_path, parts_from_paths, path_has_marker};
use chunked_table::datatypes::{Cell, DataType, Field, TableError};
use chunked_table::table::Table;

fn pair(a: &str, b: &str) -> (String, String) {
    (a.to_string(), b.to_string())
}

fn lazy(filters: Vec<(String, String)>) -> DatasetPart {
    DatasetPart::new(None, Some(filters), Some("somewhere".to_string()))
}

fn table_of(g: &[i128], h: &[i128]) -> Table {
    let col = |values: &[i128]| {
        ColumnArray::new(DataType::Int64, values.iter().map(|x| Cell::Int(*x)).collect()).unwrap()
    };
    let fields = vec![
        Field::new("g".to_string(), DataType::Int64, true),
        Field::new("h".to_string(), DataType::Int64, true),
    ];
    Table::new(fields, vec![Chunk::new(vec![col(g), col(h)]).unwrap()]).unwrap()
}

#[test]
fn keys_are_labelled_in_decimal() {
    assert_eq!(key_to_string(&Some(0)), "0");
    assert_eq!(key_to_string(&Some(7)), "7");
    assert_eq!(key_to_string(&Some(10)), "10");
    assert_eq!(key_to_string(&Some(-1)), "-1");
    assert_eq!(key_to_string(&Some(-9_223_372_036_854_775_808)), "-9223372036854775808");
    assert_eq!(key_to_string(&Some(18_446_744_073_709_551_615)), "18446744073709551615");
    assert_eq!(key_to_string(&Some(i128::MIN)), i128::MIN.to_string());
    assert_eq!(key_to_string(&Some(i128::MAX)), i128::MAX.to_string());
    assert_eq!(key_to_string(&None), "");
    assert_eq!(nat_to_string(1_234_567_890), "1234567890");
}

#[test]
fn partition_path_has_one_segment_per_partition_column() {
    let part = lazy(vec![pair("year", "2024"), pair("month", "-3"), pair("day", "")]);
    let by = |names: &[&str]| Some(names.iter().map(|n| n.to_string()).collect::<Vec<String>>());
    assert_eq!(part.partition_path(&by(&["year", "month"])), Ok("year=2024/month=-3".to_string()));
    assert_eq!(part.partition_path(&by(&["month"])), Ok("month=-3".to_string()));
    assert_eq!(part.partition_path(&by(&["day", "year"])), Ok("day=/year=2024".to_string()));
    assert_eq!(part.partition_path(&by(&[])), Ok("".to_string()));
    assert_eq!(part.partition_path(&None), Ok("".to_string()));
    assert_eq!(
        part.partition_path(&by(&["year", "hour", "minute"])),
        Err(TableError::ColumnNotFound("hour".to_string()))
    );
    let bare = DatasetPart::new(None, None, Some("p".to_string()));
    assert_eq!(bare.partition_path(&by(&[])), Ok("".to_string()));
    assert_eq!(
        bare.partition_path(&by(&["year"])),
        Err(TableError::ColumnNotFound("year".to_string()))
    );
}

#[test]
fn the_later_filter_of_a_name_counts() {
    let part = lazy(vec![pair("a", "1"), pair("b", "2"), pair("a", "3")]);
    assert_eq!(part.filter(&"a".to_string()), Some(&"3".to_string()));
    assert_eq!(part.filter(&"b".to_string()), Some(&"2".to_string()));
    assert_eq!(part.filter(&"c".to_string()), None);
}

#[test]
fn filters_are_read_off_the_segments_of_a_path() {
    assert_eq!(
        filters_from_path("data/skus/org_key=1/group=-7/file.parquet"),
        vec![pair("org_key", "1"), pair("group", "-7")]
    );
    assert_eq!(filters_from_path("data/file.parquet"), vec![]);
    assert_eq!(filters_from_path(""), vec![]);
    assert_eq!(filters_from_path("a=b=c/=x/y=/z"), vec![pair("a", "b"), pair("", "x"), pair("y", "")]);
    assert_eq!(filters_from_path("k=v"), vec![pair("k", "v")]);
    assert_eq!(filters_from_path("/k=v/"), vec![pair("k", "v")]);
    assert_eq!(filters_from_path("é=ü/x"), vec![pair("é", "ü")]);
}

#[test]
fn markers_are_found_anywhere_in_a_path() {
    assert!(path_has_marker("root/a=1/file.parquet", "parquet"));
    assert!(path_has_marker("parquet", "parquet"));
    assert!(path_has_marker("a/parquet/b", "parquet"));
    assert!(path_has_marker("anything", ""));
    assert!(path_has_marker("", ""));
    assert!(!path_has_marker("root/notes.txt", "parquet"));
    assert!(!path_has_marker("parque", "parquet"));
    assert!(!path_has_marker("", "parquet"));
    assert!(path_has_marker("papaparquet", "parquet"));
}

#[test]
fn extensions_follow_the_format() {
    assert_eq!(format_extension(Format::Parquet), "parquet");
    assert_eq!(format_extension(Format::Ipc), "ipc");
    assert_eq!(format_extension(Format::Csv), "csv");
}

#[test]
fn storage_paths_place_every_part_under_the_root() {
    let t = table_of(&[1, 2, 1], &[5, 5, 6]);
    let storage = DatasetStorage::new("data/parts".to_string(), Format::Parquet, Some(Compression::Snappy));
    let d = t
        .to_dataset(Some(vec!["g".to_string(), "h".to_string()]), None, Some(storage))
        .unwrap();
    let mut paths = d.storage_paths().unwrap();
    paths.sort();
    assert_eq!(
        paths,
        vec![
            "data/parts/g=1/h=5/file.parquet".to_string(),
            "data/parts/g=1/h=6/file.parquet".to_string(),
            "data/parts/g=2/h=5/file.parquet".to_string(),
        ]
    );
    let storage = DatasetStorage::new("out".to_string(), Format::Csv, None);
    let whole = t.to_dataset(None, None, Some(storage)).unwrap();
    assert_eq!(whole.storage_paths(), Ok(vec!["out/file.csv".to_string()]));
    assert_eq!(whole.storage_options().unwrap().root, "out");
}

#[test]
fn storage_paths_need_storage_options_and_filters() {
    let t = table_of(&[1], &[5]);
    let d = t.to_dataset(None, None, None).unwrap();
    assert_eq!(d.storage_paths(), Err(TableError::Manifest));
    assert_eq!(d.storage_options().err(), Some(TableError::Manifest));
    let storage = DatasetStorage::new("out".to_string(), Format::Ipc, None);
    let parts = vec![lazy(vec![pair("g", "1")]), lazy(vec![pair("h", "1")])];
    let d = Dataset::new(Some(vec!["g".to_string()]), None, parts, Some(storage));
    assert_eq!(d.storage_paths(), Err(TableError::ColumnNotFound("g".to_string())));
}

#[test]
fn written_paths_read_back_as_the_filters_of_the_parts() {
    let t = table_of(&[3, -4, 3, 0], &[1, 1, 2, 1]);
    let storage = DatasetStorage::new("root".to_string(), Format::Parquet, None);
    let partitions = vec!["g".to_string(), "h".to_string()];
    let d = t.to_dataset(Some(partitions.clone()), None, Some(storage)).unwrap();
    assert_eq!(d.parts.len(), 4);
    let paths = d.storage_paths().unwrap();
    let kept: Vec<String> = paths
        .iter()
        .filter(|p| path_has_marker(p, "parquet"))
        .cloned()
        .collect();
    assert_eq!(kept.len(), 4);
    let read = parts_from_paths(&kept);
    assert_eq!(read.len(), d.parts.len());
    for (lazy, part) in read.iter().zip(d.parts.iter()) {
        assert!(lazy.table.is_none());
        assert_eq!(lazy.filters, part.filters);
        assert_eq!(lazy.partition_path(&Some(partitions.clone())), part.partition_path(&Some(partitions.clone())));
    }
    assert_eq!(read[0].path, Some(kept[0].clone()));
}
