//! Key columns of a table: which fields a list of names selects, and the
//! tuple of keys that each row carries in them.

use crate::chunks::Row;
use crate::column::{column_keys, ColumnArray, Key};
use crate::datatypes::{DataType, Field, TableError};
use crate::groupby::row_tuple;
use crate::merge::{arrays_wf, cols_of, first_non_key, rows_in};
use crate::table::{lemma_rows_len, same_fields, Table};
use vstd::prelude::*;

verus! {

/// The first field from `from` on that is named `name`, or the number of
/// fields where there is none.
pub open spec fn field_index(fields: Seq<Field>, name: Seq<char>, from: int) -> int
    decreases fields.len() - from,
{
    if from >= fields.len() {
        fields.len() as int
    } else if fields[from].name@ == name {
        from
    } else {
        field_index(fields, name, from + 1)
    }
}

/// What `field_index` finds.
pub proof fn lemma_field_index(fields: Seq<Field>, name: Seq<char>, from: int)
    requires
        0 <= from <= fields.len(),
    ensures
        from <= field_index(fields, name, from) <= fields.len(),
        field_index(fields, name, from) < fields.len() ==> fields[field_index(
            fields,
            name,
            from,
        )].name@ == name,
        forall|i: int|
            from <= i < field_index(fields, name, from) ==> (#[trigger] fields[i]).name@ != name,
    decreases fields.len() - from,
{
    if from < fields.len() && fields[from].name@ != name {
        lemma_field_index(fields, name, from + 1);
    }
}

/// Whether a field is named `name`.
pub open spec fn has_field(fields: Seq<Field>, name: Seq<char>) -> bool {
    field_index(fields, name, 0) < fields.len()
}

/// The first name from `from` on that no field carries, or the number of
/// names where every one is carried.
pub open spec fn first_missing(fields: Seq<Field>, columns: Seq<String>, from: int) -> int
    decreases columns.len() - from,
{
    if from >= columns.len() {
        columns.len() as int
    } else if !has_field(fields, columns[from]@) {
        from
    } else {
        first_missing(fields, columns, from + 1)
    }
}

/// The first missing name lies between `from` and the number of names.
pub proof fn lemma_first_missing_bounds(fields: Seq<Field>, columns: Seq<String>, from: int)
    requires
        0 <= from <= columns.len(),
    ensures
        from <= first_missing(fields, columns, from) <= columns.len(),
    decreases columns.len() - from,
{
    if from < columns.len() && has_field(fields, columns[from]@) {
        lemma_first_missing_bounds(fields, columns, from + 1);
    }
}

/// The fields that a list of names selects, name by name.
pub open spec fn key_columns(fields: Seq<Field>, columns: Seq<String>) -> Seq<usize> {
    Seq::new(columns.len(), |j: int| field_index(fields, columns[j]@, 0) as usize)
}

/// The types of the selected fields.
pub open spec fn key_types(fields: Seq<Field>, cs: Seq<usize>) -> Seq<DataType> {
    Seq::new(cs.len(), |j: int| fields[cs[j] as int].data_type)
}

/// The first type from `from` on that cannot be hashed as a key, or the
/// number of types where all can.
pub open spec fn first_non_key_type(types: Seq<DataType>, from: int) -> int
    decreases types.len() - from,
{
    if from >= types.len() {
        types.len() as int
    } else if !types[from].is_key_type() {
        from
    } else {
        first_non_key_type(types, from + 1)
    }
}

/// Whether every selected position is that of a field.
pub open spec fn valid_positions(cs: Seq<usize>, fields: int) -> bool {
    forall|j: int| 0 <= j < cs.len() ==> (#[trigger] cs[j]) < fields
}

/// The tuple of keys that a row carries in the columns `cs`.
pub open spec fn row_key(row: Row, cs: Seq<usize>) -> Seq<Key> {
    Seq::new(cs.len(), |j: int| ColumnArray::key_of(row[cs[j] as int]))
}

/// Whether some row carries the tuple of keys `t` in the columns `cs`.
pub open spec fn holds_key(rows: Seq<Row>, cs: Seq<usize>, t: Seq<Key>) -> bool {
    exists|q: int| 0 <= q < rows.len() && #[trigger] row_key(rows[q], cs) == t
}

/// The test "carries the tuple of keys `t` in the columns `cs`".
pub open spec fn keyed_as(cs: Seq<usize>, t: Seq<Key>) -> spec_fn(Row) -> bool {
    |r: Row| row_key(r, cs) == t
}

/// The test "carries a tuple of keys that no row of `right` carries".
pub open spec fn unclaimed_by(right: Seq<Row>, cs: Seq<usize>) -> spec_fn(Row) -> bool {
    |r: Row| !holds_key(right, cs, row_key(r, cs))
}

/// The rows of `left` whose tuple of keys no row of `right` carries, in
/// order.
pub open spec fn survivors(left: Seq<Row>, right: Seq<Row>, cs: Seq<usize>) -> Seq<Row> {
    left.filter(unclaimed_by(right, cs))
}

/// Whether no two rows carry the same tuple of keys in the columns `cs`.
pub open spec fn key_unique(rows: Seq<Row>, cs: Seq<usize>) -> bool {
    forall|i: int, j: int|
        0 <= i < j < rows.len() ==> #[trigger] row_key(rows[i], cs) != #[trigger] row_key(
            rows[j],
            cs,
        )
}

impl Table {
    /// The key columns `cs` of the table as sequences of keys.
    pub open spec fn key_cols(&self, cs: Seq<usize>) -> Seq<Seq<Key>> {
        Seq::new(cs.len(), |j: int| column_keys(self.column_cells(cs[j] as int)))
    }

    /// The tuple that row `p` carries in the key columns is the key of the
    /// row.
    pub proof fn lemma_key_cols(&self, cs: Seq<usize>, p: int)
        requires
            self.wf(),
            valid_positions(cs, self.fields.len() as int),
            0 <= p < self.rows().len(),
        ensures
            row_tuple(self.key_cols(cs), p) == row_key(self.rows()[p], cs),
    {
        assert(row_tuple(self.key_cols(cs), p) =~= row_key(self.rows()[p], cs));
    }

    /// Finds the fields that a list of names selects.
    pub fn key_positions(&self, columns: &Vec<String>) -> (r: Result<Vec<usize>, TableError>)
        ensures
            r is Ok <==> first_missing(self.fields@, columns@, 0) == columns.len(),
            r matches Ok(cs) ==> cs@ == key_columns(self.fields@, columns@) && valid_positions(
                cs@,
                self.fields.len() as int,
            ),
            r matches Err(e) ==> e == TableError::ColumnNotFound(
                columns[first_missing(self.fields@, columns@, 0)],
            ),
    {
        let mut cs: Vec<usize> = Vec::new();
        let mut j: usize = 0;
        while j < columns.len()
            invariant
                j <= columns.len(),
                first_missing(self.fields@, columns@, 0) == first_missing(
                    self.fields@,
                    columns@,
                    j as int,
                ),
                cs.len() == j,
                forall|i: int|
                    0 <= i < j ==> (#[trigger] cs[i]) < self.fields.len() && cs[i] == field_index(
                        self.fields@,
                        columns[i]@,
                        0,
                    ),
            decreases columns.len() - j,
        {
            proof {
                lemma_field_index(self.fields@, columns[j as int]@, 0);
            }
            match self.position(&columns[j]) {
                Ok(c) => {
                    proof {
                        let f = field_index(self.fields@, columns[j as int]@, 0);
                        if f < c {
                            assert(self.fields[f].name@ != columns[j as int]@);
                        }
                        if c < f {
                            assert(self.fields[c as int].name@ != columns[j as int]@);
                        }
                    }
                    cs.push(c);
                },
                Err(e) => {
                    proof {
                        let f = field_index(self.fields@, columns[j as int]@, 0);
                        if f < self.fields.len() {
                            assert(self.fields[f].name@ == columns[j as int]@);
                        }
                    }
                    return Err(e);
                },
            }
            j += 1;
        }
        assert(cs@ =~= key_columns(self.fields@, columns@));
        Ok(cs)
    }

    /// The selected columns, each as one contiguous column.
    pub fn key_arrays(&self, cs: &Vec<usize>) -> (arrays: Vec<ColumnArray>)
        requires
            self.wf(),
            valid_positions(cs@, self.fields.len() as int),
        ensures
            arrays.len() == cs.len(),
            arrays_wf(arrays@),
            cols_of(arrays@) == self.key_cols(cs@),
            cs.len() > 0 ==> rows_in(arrays@) == self.spec_num_rows(),
            forall|j: int|
                0 <= j < cs.len() ==> (#[trigger] arrays[j]).data_type
                    == self.fields[cs[j] as int].data_type,
            first_non_key(arrays@, 0) == first_non_key_type(key_types(self.fields@, cs@), 0),
    {
        let mut arrays: Vec<ColumnArray> = Vec::new();
        let mut j: usize = 0;
        proof {
            lemma_rows_len(self.chunks@);
        }
        while j < cs.len()
            invariant
                j <= cs.len(),
                self.wf(),
                valid_positions(cs@, self.fields.len() as int),
                arrays.len() == j,
                forall|i: int|
                    0 <= i < j ==> (#[trigger] arrays[i]).wf() && arrays[i]@
                        == self.column_cells(cs[i] as int) && arrays[i].data_type
                        == self.fields[cs[i] as int].data_type,
            decreases cs.len() - j,
        {
            arrays.push(self.column_at(cs[j]));
            j += 1;
        }
        proof {
            assert(cols_of(arrays@) =~= self.key_cols(cs@));
            lemma_first_non_key_types(arrays@, key_types(self.fields@, cs@), 0);
        }
        arrays
    }
}

/// Columns and a list of their types have the same first entry that is not
/// of a key type.
pub proof fn lemma_first_non_key_types(arrays: Seq<ColumnArray>, types: Seq<DataType>, from: int)
    requires
        arrays.len() == types.len(),
        0 <= from,
        forall|j: int| 0 <= j < arrays.len() ==> (#[trigger] arrays[j]).data_type == types[j],
    ensures
        first_non_key(arrays, from) == first_non_key_type(types, from),
    decreases arrays.len() - from,
{
    if from < arrays.len() {
        assert(arrays[from].data_type == types[from]);
        lemma_first_non_key_types(arrays, types, from + 1);
    }
}

/// Field lists that agree find a name at the same place.
pub proof fn lemma_field_index_same(a: Seq<Field>, b: Seq<Field>, name: Seq<char>, from: int)
    requires
        a.len() == b.len(),
        forall|i: int| 0 <= i < a.len() ==> (#[trigger] a[i]).same(&b[i]),
        0 <= from,
    ensures
        field_index(a, name, from) == field_index(b, name, from),
    decreases a.len() - from,
{
    if from < a.len() {
        assert(a[from].same(&b[from]));
        lemma_field_index_same(a, b, name, from + 1);
    }
}

impl Table {
    /// Whether the two tables can be related by the key columns `columns`:
    /// their fields agree, every name is a field and there is one at least,
    /// every key column is of an integer type, and 32 bits can number the
    /// rows of both tables together.
    pub open spec fn can_relate(&self, other: &Table, columns: Seq<String>) -> bool {
        &&& same_fields(self.fields@, other.fields@)
        &&& first_missing(self.fields@, columns, 0) == columns.len()
        &&& columns.len() > 0
        &&& first_non_key_type(key_types(self.fields@, key_columns(self.fields@, columns)), 0)
            == columns.len()
        &&& self.spec_num_rows() + other.spec_num_rows() <= u32::MAX
    }

    /// Why the two tables cannot be related by `columns`: the first of the
    /// conditions of [`Table::can_relate`] that fails.
    pub open spec fn relate_error(&self, other: &Table, columns: Seq<String>) -> TableError {
        let cs = key_columns(self.fields@, columns);
        let types = key_types(self.fields@, cs);
        if !same_fields(self.fields@, other.fields@) {
            TableError::SchemaMismatch
        } else if first_missing(self.fields@, columns, 0) < columns.len() {
            TableError::ColumnNotFound(columns[first_missing(self.fields@, columns, 0)])
        } else if columns.len() == 0 {
            TableError::KeyTypeMismatch
        } else if first_non_key_type(types, 0) < columns.len() {
            TableError::UnsupportedKeyType(types[first_non_key_type(types, 0)])
        } else {
            TableError::Overflow
        }
    }
}

} // verus!
