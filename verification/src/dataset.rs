//! Partitioned datasets: parts, their partition coordinates, and where each
//! part lives under the storage root.

use crate::datatypes::TableError;
use crate::table::Table;
use vstd::prelude::*;
use vstd::string::{StrSliceExecFns, StringExecFns};

verus! {

/// The file format of a stored dataset.
#[derive(Clone, Copy, Debug, PartialEq, Eq, Structural)]
pub enum Format {
    Parquet,
    Ipc,
    Csv,
}

/// The compression of the stored files.
#[derive(Clone, Copy, Debug, PartialEq, Eq, Structural)]
pub enum Compression {
    Snappy,
    Lz4Raw,
}

/// Where and how a dataset is stored.
#[derive(Debug)]
pub struct DatasetStorage {
    pub root: String,
    pub format: Format,
    pub compression: Option<Compression>,
}

impl DatasetStorage {
    /// Storage options for a dataset under `root`.
    pub fn new(root: String, format: Format, compression: Option<Compression>) -> (s: Self)
        ensures
            s.root == root,
            s.format == format,
            s.compression == compression,
    {
        Self { root, format, compression }
    }
}

/// One partition's worth of rows: in memory as a table, on disk as a path, or
/// both, with the partition coordinate it belongs to.
#[derive(Debug)]
pub struct DatasetPart {
    pub table: Option<Table>,
    /// Pairs of column name and value label. Where a name stands twice, the
    /// later pair counts.
    pub filters: Option<Vec<(String, String)>>,
    pub path: Option<String>,
}

/// The value that the last pair named `name` among the first `upto` gives.
pub open spec fn filter_value(filters: Seq<(String, String)>, name: Seq<char>, upto: int) -> Option<
    Seq<char>,
>
    decreases upto,
{
    if upto <= 0 {
        None
    } else if filters[upto - 1].0@ == name {
        Some(filters[upto - 1].1@)
    } else {
        filter_value(filters, name, upto - 1)
    }
}

/// The value that a part's filters give for `name`.
pub open spec fn part_value(filters: Option<Vec<(String, String)>>, name: Seq<char>) -> Option<
    Seq<char>,
> {
    match filters {
        None => None,
        Some(f) => filter_value(f@, name, f@.len() as int),
    }
}

/// One segment of a partition path.
pub open spec fn segment(name: Seq<char>, value: Seq<char>) -> Seq<char> {
    name + seq!['='] + value
}

/// The partition path over the first `k` partition columns: one segment per
/// column, joined by `/`.
pub open spec fn path_upto(
    partitions: Seq<String>,
    filters: Option<Vec<(String, String)>>,
    k: int,
) -> Seq<char>
    decreases k,
{
    if k <= 0 {
        Seq::empty()
    } else {
        let seg = segment(partitions[k - 1]@, part_value(filters, partitions[k - 1]@).unwrap());
        if k == 1 {
            seg
        } else {
            path_upto(partitions, filters, k - 1) + seq!['/'] + seg
        }
    }
}

/// The first partition column from `from` on for which the filters give no
/// value, or the number of columns where there is none.
pub open spec fn first_unfiltered(
    partitions: Seq<String>,
    filters: Option<Vec<(String, String)>>,
    from: int,
) -> int
    decreases partitions.len() - from,
{
    if from >= partitions.len() {
        partitions.len() as int
    } else if part_value(filters, partitions[from]@) is None {
        from
    } else {
        first_unfiltered(partitions, filters, from + 1)
    }
}

impl DatasetPart {
    /// A part holds a table, a path, or both.
    pub open spec fn wf(&self) -> bool {
        &&& self.table is Some || self.path is Some
        &&& self.table matches Some(t) ==> t.wf()
    }

    /// A part that holds a table, a path, or both.
    pub fn new(
        table: Option<Table>,
        filters: Option<Vec<(String, String)>>,
        path: Option<String>,
    ) -> (part: Self)
        requires
            table is Some || path is Some,
            table matches Some(t) ==> t.wf(),
        ensures
            part.wf(),
            part.table == table,
            part.filters == filters,
            part.path == path,
    {
        Self { table, filters, path }
    }

    /// The value label that the filters give for `name`.
    #[verifier::loop_isolation(false)]
    pub fn filter(&self, name: &String) -> (r: Option<&String>)
        ensures
            r is Some <==> part_value(self.filters, name@) is Some,
            r matches Some(v) ==> Some(v@) == part_value(self.filters, name@),
    {
        match &self.filters {
            None => None,
            Some(f) => {
                let mut i: usize = f.len();
                while i > 0
                    invariant
                        i <= f.len(),
                        filter_value(f@, name@, f@.len() as int) == filter_value(
                            f@,
                            name@,
                            i as int,
                        ),
                    decreases i,
                {
                    if f[i - 1].0 == *name {
                        return Some(&f[i - 1].1);
                    }
                    i -= 1;
                }
                None
            },
        }
    }

    /// The directory of the part below the storage root: one segment
    /// `column=value` per partition column, in the order of the columns,
    /// joined by `/`; empty where the dataset is not partitioned. Refused
    /// where the filters give no value for a partition column.
    #[verifier::loop_isolation(false)]
    pub fn partition_path(&self, partitions: &Option<Vec<String>>) -> (r: Result<
        String,
        TableError,
    >)
        ensures
            partitions is None ==> r is Ok && r->Ok_0@ == Seq::<char>::empty(),
            partitions matches Some(ps) ==> {
                &&& r is Ok <==> first_unfiltered(ps@, self.filters, 0) == ps.len()
                &&& r matches Ok(path) ==> path@ == path_upto(ps@, self.filters, ps.len() as int)
                &&& r matches Err(e) ==> e == TableError::ColumnNotFound(
                    ps[first_unfiltered(ps@, self.filters, 0)],
                )
            },
    {
        match partitions {
            None => Ok(String::new()),
            Some(ps) => {
                let mut path = String::new();
                let mut k: usize = 0;
                while k < ps.len()
                    invariant
                        k <= ps.len(),
                        first_unfiltered(ps@, self.filters, 0) == first_unfiltered(
                            ps@,
                            self.filters,
                            k as int,
                        ),
                        path@ == path_upto(ps@, self.filters, k as int),
                    decreases ps.len() - k,
                {
                    match self.filter(&ps[k]) {
                        None => {
                            return Err(TableError::ColumnNotFound(ps[k].clone()));
                        },
                        Some(value) => {
                            proof {
                                reveal_strlit("/");
                                reveal_strlit("=");
                            }
                            let ghost before = path@;
                            if k > 0 {
                                path.append("/");
                            }
                            path.append(ps[k].as_str());
                            path.append("=");
                            path.append(value.as_str());
                            assert(path@ =~= path_upto(ps@, self.filters, k + 1)) by {
                                assert("/"@ =~= seq!['/']);
                                assert("="@ =~= seq!['=']);
                                if k == 0 {
                                    assert(before =~= Seq::<char>::empty());
                                }
                            }
                        },
                    }
                    k += 1;
                }
                Ok(path)
            },
        }
    }
}

/// A partitioned table: the columns that drive the directory layout, the
/// reserved bucketing columns, the parts, and where they are stored.
#[derive(Debug)]
pub struct Dataset {
    pub partitions: Option<Vec<String>>,
    pub buckets: Option<Vec<String>>,
    pub parts: Vec<DatasetPart>,
    pub storage: Option<DatasetStorage>,
}

impl Dataset {
    /// Every part holds a table, a path, or both, and every part of a
    /// partitioned dataset has filters.
    pub open spec fn wf(&self) -> bool {
        forall|i: int|
            0 <= i < self.parts.len() ==> (#[trigger] self.parts[i]).wf() && (self.partitions
                is Some ==> self.parts[i].filters is Some)
    }

    /// A dataset of the given parts.
    pub fn new(
        partitions: Option<Vec<String>>,
        buckets: Option<Vec<String>>,
        parts: Vec<DatasetPart>,
        storage: Option<DatasetStorage>,
    ) -> (d: Self)
        ensures
            d.partitions == partitions,
            d.buckets == buckets,
            d.parts == parts,
            d.storage == storage,
    {
        Self { partitions, buckets, parts, storage }
    }

    /// Whether partition columns drive the directory layout.
    pub fn is_partitioned(&self) -> (b: bool)
        ensures
            b == self.partitions is Some,
    {
        self.partitions.is_some()
    }

    /// Whether bucketing columns are set.
    pub fn is_bucketized(&self) -> (b: bool)
        ensures
            b == self.buckets is Some,
    {
        self.buckets.is_some()
    }
}

/// The file extension of a format.
pub open spec fn extension(format: Format) -> Seq<char> {
    match format {
        Format::Parquet => "parquet"@,
        Format::Ipc => "ipc"@,
        Format::Csv => "csv"@,
    }
}

/// The file extension of a format, which also marks the files of a dataset.
pub fn format_extension(format: Format) -> (s: &'static str)
    ensures
        s@ == extension(format),
{
    match format {
        Format::Parquet => "parquet",
        Format::Ipc => "ipc",
        Format::Csv => "csv",
    }
}

/// The path of the file of a part: the root, the part's directory where it
/// has one, and the file name with the extension of the format.
pub open spec fn file_path(root: Seq<char>, dir: Seq<char>, format: Format) -> Seq<char> {
    if dir.len() == 0 {
        root + "/file."@ + extension(format)
    } else {
        root + "/"@ + dir + "/file."@ + extension(format)
    }
}

/// The path of a part's directory, or the partition column that the part's
/// filters give no value for.
pub open spec fn dir_result(part: &DatasetPart, partitions: Option<Vec<String>>) -> Result<
    Seq<char>,
    TableError,
> {
    match partitions {
        None => Ok(Seq::empty()),
        Some(ps) => if first_unfiltered(ps@, part.filters, 0) == ps.len() {
            Ok(path_upto(ps@, part.filters, ps.len() as int))
        } else {
            Err(TableError::ColumnNotFound(ps[first_unfiltered(ps@, part.filters, 0)]))
        },
    }
}

/// The first part from `from` on that has no directory, or the number of
/// parts where all have one.
pub open spec fn first_unplaced(
    parts: Seq<DatasetPart>,
    partitions: Option<Vec<String>>,
    from: int,
) -> int
    decreases parts.len() - from,
{
    if from >= parts.len() {
        parts.len() as int
    } else if dir_result(&parts[from], partitions) is Err {
        from
    } else {
        first_unplaced(parts, partitions, from + 1)
    }
}

impl Dataset {
    /// The storage options, refused where the dataset has none.
    pub fn storage_options(&self) -> (r: Result<&DatasetStorage, TableError>)
        ensures
            r is Ok <==> self.storage is Some,
            r matches Ok(s) ==> Some(*s) == self.storage,
            r matches Err(e) ==> e is Manifest,
    {
        match &self.storage {
            Some(s) => Ok(s),
            None => Err(TableError::Manifest),
        }
    }

    /// Where each part is to be written: one file path per part, in the order
    /// of the parts.
    ///
    /// Refused where the dataset has no storage options, and where the
    /// filters of a part give no value for a partition column.
    #[verifier::loop_isolation(false)]
    pub fn storage_paths(&self) -> (r: Result<Vec<String>, TableError>)
        ensures
            r is Ok <==> self.storage is Some && first_unplaced(self.parts@, self.partitions, 0)
                == self.parts.len(),
            r matches Ok(paths) ==> paths.len() == self.parts.len() && forall|i: int|
                0 <= i < paths.len() ==> (#[trigger] paths[i])@ == file_path(
                    self.storage.unwrap().root@,
                    dir_result(&self.parts[i], self.partitions)->Ok_0,
                    self.storage.unwrap().format,
                ),
            r matches Err(e) ==> if self.storage is None {
                e is Manifest
            } else {
                dir_result(
                    &self.parts[first_unplaced(self.parts@, self.partitions, 0)],
                    self.partitions,
                ) == Err::<Seq<char>, TableError>(e)
            },
    {
        let storage = match self.storage_options() {
            Ok(s) => s,
            Err(e) => {
                return Err(e);
            },
        };
        let mut paths: Vec<String> = Vec::new();
        let mut i: usize = 0;
        while i < self.parts.len()
            invariant
                i <= self.parts.len(),
                first_unplaced(self.parts@, self.partitions, 0) == first_unplaced(
                    self.parts@,
                    self.partitions,
                    i as int,
                ),
                paths.len() == i,
                forall|k: int|
                    0 <= k < i ==> (#[trigger] paths[k])@ == file_path(
                        storage.root@,
                        dir_result(&self.parts[k], self.partitions)->Ok_0,
                        storage.format,
                    ),
            decreases self.parts.len() - i,
        {
            let dir = match self.parts[i].partition_path(&self.partitions) {
                Ok(dir) => dir,
                Err(e) => {
                    return Err(e);
                },
            };
            let mut path = storage.root.clone();
            if dir.as_str().unicode_len() > 0 {
                path.append("/");
                path.append(dir.as_str());
            }
            path.append("/file.");
            path.append(format_extension(storage.format));
            assert(path@ =~= file_path(storage.root@, dir@, storage.format));
            paths.push(path);
            i += 1;
        }
        Ok(paths)
    }
}

} // verus!
