//! Upsert, delete and join of whole tables by key columns.

use crate::chunks::Row;
use crate::column::{all_below, gather, ColumnArray, Key};
use crate::datatypes::{Field, TableError};
use crate::groupby::row_tuple;
use crate::join::{join_arrays, join_pairs, zipped};
use crate::keys::{
    first_missing, first_non_key_type, holds_key, key_columns, key_types,
    lemma_first_missing_bounds, row_key, survivors, unclaimed_by, valid_positions,
};
use crate::merge::{
    arrays_wf, claimed, cols_of, delete_arrays, first_non_key, lemma_first_non_key_bounds,
    merge_arrays, rows_in, same_key_types, unclaimed,
};
use crate::table::{lemma_rows_len, same_fields, Table};
use vstd::prelude::*;

verus! {

/// Every unclaimed row lies before `hi`.
pub proof fn lemma_unclaimed_below(left: Seq<Seq<Key>>, right: Seq<Seq<Key>>, m: int, hi: int)
    requires
        0 <= hi <= u32::MAX,
    ensures
        all_below(unclaimed(left, right, m, hi), hi),
        unclaimed(left, right, m, hi).len() <= hi,
    decreases hi,
{
    if hi > 0 {
        lemma_unclaimed_below(left, right, m, hi - 1);
    }
}

/// Where the key columns list the keys of the rows, gathering the unclaimed
/// rows of the left side keeps exactly the rows whose tuple of keys no row
/// of the right side carries.
pub proof fn lemma_unclaimed_survivors(
    left_rows: Seq<Row>,
    right_rows: Seq<Row>,
    left: Seq<Seq<Key>>,
    right: Seq<Seq<Key>>,
    cs: Seq<usize>,
    hi: int,
)
    requires
        0 <= hi <= left_rows.len() <= u32::MAX,
        forall|p: int|
            0 <= p < left_rows.len() ==> #[trigger] row_tuple(left, p) == row_key(
                left_rows[p],
                cs,
            ),
        forall|q: int|
            0 <= q < right_rows.len() ==> #[trigger] row_tuple(right, q) == row_key(
                right_rows[q],
                cs,
            ),
    ensures
        gather(left_rows, unclaimed(left, right, right_rows.len() as int, hi))
            == left_rows.subrange(0, hi).filter(unclaimed_by(right_rows, cs)),
    decreases hi,
{
    reveal(Seq::filter);
    let m = right_rows.len() as int;
    let pred = unclaimed_by(right_rows, cs);
    if hi > 0 {
        lemma_unclaimed_survivors(left_rows, right_rows, left, right, cs, hi - 1);
        lemma_unclaimed_below(left, right, m, hi - 1);
        let p = hi - 1;
        let s = left_rows.subrange(0, hi);
        assert(s.drop_last() =~= left_rows.subrange(0, hi - 1));
        assert(s.last() == left_rows[p]);
        assert(claimed(left, right, m, p) <==> holds_key(right_rows, cs, row_key(left_rows[p], cs)))
            by {
            if claimed(left, right, m, p) {
                let q = choose|q: int|
                    0 <= q < m && #[trigger] row_tuple(right, q) == row_tuple(left, p);
                assert(row_key(right_rows[q], cs) == row_key(left_rows[p], cs));
            }
            if holds_key(right_rows, cs, row_key(left_rows[p], cs)) {
                let q = choose|q: int|
                    0 <= q < right_rows.len() && #[trigger] row_key(right_rows[q], cs) == row_key(
                        left_rows[p],
                        cs,
                    );
                assert(row_tuple(right, q) == row_tuple(left, p));
            }
        }
        let before = unclaimed(left, right, m, hi - 1);
        if !claimed(left, right, m, p) {
            assert(gather(left_rows, before.push(p as u32)) =~= gather(left_rows, before).push(
                left_rows[p],
            ));
        }
    } else {
        assert(gather(left_rows, unclaimed(left, right, m, 0)) =~= Seq::<Row>::empty());
    }
}

/// Agreement of field lists carries over from one list to the next.
pub proof fn lemma_same_fields_chain(a: Seq<Field>, b: Seq<Field>, c: Seq<Field>)
    requires
        same_fields(a, b),
        same_fields(b, c),
    ensures
        same_fields(a, c),
        same_fields(b, a),
{
    assert forall|i: int| 0 <= i < a.len() implies (#[trigger] a[i]).same(&c[i]) by {
        assert(a[i].same(&b[i]));
        assert(b[i].same(&c[i]));
    }
    assert forall|i: int| 0 <= i < b.len() implies (#[trigger] b[i]).same(&a[i]) by {
        assert(a[i].same(&b[i]));
    }
}

/// The key columns of two tables, ready to be related.
pub struct KeySides {
    /// The positions of the key columns among the fields.
    pub positions: Vec<usize>,
    /// The key columns of the first table, each as one contiguous column.
    pub left: Vec<ColumnArray>,
    /// The key columns of the second table.
    pub right: Vec<ColumnArray>,
}

impl Table {
    /// Checks that the two tables have the same fields, finds the key
    /// columns that `columns` names, and lays them out for both tables.
    pub fn key_sides(&self, other: &Table, columns: &Vec<String>) -> (r: Result<
        KeySides,
        TableError,
    >)
        requires
            self.wf(),
            other.wf(),
        ensures
            r is Ok <==> same_fields(self.fields@, other.fields@) && first_missing(
                self.fields@,
                columns@,
                0,
            ) == columns.len(),
            r matches Ok(sides) ==> {
                &&& sides.positions@ == key_columns(self.fields@, columns@)
                &&& valid_positions(sides.positions@, self.fields.len() as int)
                &&& arrays_wf(sides.left@)
                &&& arrays_wf(sides.right@)
                &&& sides.left.len() == columns.len()
                &&& same_key_types(sides.left@, sides.right@)
                &&& cols_of(sides.left@) == self.key_cols(sides.positions@)
                &&& cols_of(sides.right@) == other.key_cols(sides.positions@)
                &&& columns.len() > 0 ==> rows_in(sides.left@) == self.spec_num_rows() && rows_in(
                    sides.right@,
                ) == other.spec_num_rows()
                &&& first_non_key(sides.left@, 0) == first_non_key_type(
                    key_types(self.fields@, sides.positions@),
                    0,
                )
                &&& first_non_key(sides.left@, 0) < columns.len() ==> sides.left[first_non_key(
                    sides.left@,
                    0,
                )].data_type == key_types(self.fields@, sides.positions@)[first_non_key(
                    sides.left@,
                    0,
                )]
            },
            r matches Err(e) ==> e == self.relate_error(other, columns@) && (e is SchemaMismatch
                || e is ColumnNotFound),
    {
        match self.table_eq(other) {
            Err(e) => {
                return Err(e);
            },
            Ok(()) => {},
        }
        let cs = match self.key_positions(columns) {
            Err(e) => {
                proof {
                    lemma_first_missing_bounds(self.fields@, columns@, 0);
                }
                return Err(e);
            },
            Ok(cs) => cs,
        };
        let left = self.key_arrays(&cs);
        let right = other.key_arrays(&cs);
        proof {
            assert forall|c: int| 0 <= c < left.len() implies (#[trigger] left[c]).data_type
                == right[c].data_type by {
                assert(self.fields[cs[c] as int].same(&other.fields[cs[c] as int]));
            }
            lemma_first_non_key_bounds(left@, 0);
            let types = key_types(self.fields@, cs@);
            let k = first_non_key_type(types, 0);
            if k < types.len() {
                assert(types[k] == left[k].data_type);
            }
        }
        Ok(KeySides { positions: cs, left, right })
    }

    /// The rows of both tables, seen through the key columns, carry the
    /// tuples that the key columns list.
    pub proof fn lemma_sides_keys(&self, other: &Table, cs: Seq<usize>)
        requires
            self.wf(),
            other.wf(),
            self.fields.len() == other.fields.len(),
            valid_positions(cs, self.fields.len() as int),
        ensures
            forall|p: int|
                0 <= p < self.rows().len() ==> #[trigger] row_tuple(self.key_cols(cs), p)
                    == row_key(self.rows()[p], cs),
            forall|q: int|
                0 <= q < other.rows().len() ==> #[trigger] row_tuple(other.key_cols(cs), q)
                    == row_key(other.rows()[q], cs),
    {
        assert forall|p: int| 0 <= p < self.rows().len() implies #[trigger] row_tuple(
            self.key_cols(cs),
            p,
        ) == row_key(self.rows()[p], cs) by {
            self.lemma_key_cols(cs, p);
        }
        assert forall|q: int| 0 <= q < other.rows().len() implies #[trigger] row_tuple(
            other.key_cols(cs),
            q,
        ) == row_key(other.rows()[q], cs) by {
            other.lemma_key_cols(cs, q);
        }
    }

    /// Deletes by key: the rows whose tuple of keys in `columns` no row of
    /// `other` carries, in order, as a table of one chunk.
    ///
    /// Refused where the fields of the two tables differ, where a name in
    /// `columns` is not a field or there is no name, where a key column is
    /// not of an integer type, and where the two tables together have more
    /// rows than 32 bits can number.
    pub fn delete(&self, other: &Table, columns: &Vec<String>) -> (r: Result<Table, TableError>)
        requires
            self.wf(),
            other.wf(),
        ensures
            r is Ok <==> self.can_relate(other, columns@),
            r matches Ok(t) ==> t.wf() && same_fields(t.fields@, self.fields@) && t.chunks.len()
                == 1 && t.rows() == survivors(
                self.rows(),
                other.rows(),
                key_columns(self.fields@, columns@),
            ),
            r matches Err(e) ==> e == self.relate_error(other, columns@),
    {
        let sides = match self.key_sides(other, columns) {
            Err(e) => {
                return Err(e);
            },
            Ok(sides) => sides,
        };
        proof {
            lemma_rows_len(self.chunks@);
            lemma_rows_len(other.chunks@);
        }
        match delete_arrays(&sides.left, &sides.right) {
            Err(e) => Err(e),
            Ok(keep) => {
                proof {
                    let cs = sides.positions@;
                    let n = self.spec_num_rows() as int;
                    lemma_unclaimed_below(
                        cols_of(sides.left@),
                        cols_of(sides.right@),
                        rows_in(sides.right@),
                        n,
                    );
                    self.lemma_sides_keys(other, cs);
                    lemma_unclaimed_survivors(
                        self.rows(),
                        other.rows(),
                        self.key_cols(cs),
                        other.key_cols(cs),
                        cs,
                        n,
                    );
                    assert(self.rows().subrange(0, n) =~= self.rows());
                }
                match self.take(keep) {
                    Ok(t) => Ok(t),
                    Err(e) => {
                        assert(false);
                        Err(e)
                    },
                }
            },
        }
    }

    /// Upserts by key: the rows whose tuple of keys in `columns` no row of
    /// `other` carries, in order, followed by every row of `other`, as a
    /// table of two chunks.
    ///
    /// Refused as [`Table::delete`] is.
    pub fn upsert(&self, other: &Table, columns: &Vec<String>) -> (r: Result<Table, TableError>)
        requires
            self.wf(),
            other.wf(),
        ensures
            r is Ok <==> self.can_relate(other, columns@),
            r matches Ok(t) ==> t.wf() && same_fields(t.fields@, self.fields@) && t.chunks.len()
                == 2 && t.rows() == survivors(
                self.rows(),
                other.rows(),
                key_columns(self.fields@, columns@),
            ) + other.rows(),
            r matches Err(e) ==> e == self.relate_error(other, columns@),
    {
        let sides = match self.key_sides(other, columns) {
            Err(e) => {
                return Err(e);
            },
            Ok(sides) => sides,
        };
        proof {
            lemma_rows_len(self.chunks@);
            lemma_rows_len(other.chunks@);
        }
        match merge_arrays(&sides.left, &sides.right) {
            Err(e) => Err(e),
            Ok((left_idxs, right_idxs)) => {
                proof {
                    let cs = sides.positions@;
                    let n = self.spec_num_rows() as int;
                    lemma_unclaimed_below(
                        cols_of(sides.left@),
                        cols_of(sides.right@),
                        rows_in(sides.right@),
                        n,
                    );
                    self.lemma_sides_keys(other, cs);
                    lemma_unclaimed_survivors(
                        self.rows(),
                        other.rows(),
                        self.key_cols(cs),
                        other.key_cols(cs),
                        cs,
                        n,
                    );
                    assert(self.rows().subrange(0, n) =~= self.rows());
                    assert(gather(other.rows(), right_idxs@) =~= other.rows());
                }
                let mut lt = match self.take(left_idxs) {
                    Ok(t) => t,
                    Err(e) => {
                        assert(false);
                        return Err(e);
                    },
                };
                let mut rt = match other.take(right_idxs) {
                    Ok(t) => t,
                    Err(e) => {
                        assert(false);
                        return Err(e);
                    },
                };
                proof {
                    lemma_same_fields_chain(lt.fields@, self.fields@, other.fields@);
                    lemma_same_fields_chain(rt.fields@, other.fields@, lt.fields@);
                    lemma_same_fields_chain(lt.fields@, other.fields@, rt.fields@);
                    lemma_rows_len(lt.chunks@);
                    lemma_rows_len(rt.chunks@);
                }
                match lt.append(&mut rt) {
                    Ok(()) => Ok(lt),
                    Err(e) => {
                        assert(false);
                        Err(e)
                    },
                }
            },
        }
    }

    /// Joins by key: every pair of a row of this table and a row of `other`
    /// that carry the same tuple of keys in `columns`, as two lists of row
    /// positions of equal length.
    ///
    /// The table with fewer rows is indexed and the other probes it: the
    /// pairs come in the order of the probing table's rows, and under one
    /// probing row in the order of the indexed table's rows. Refused as
    /// [`Table::delete`] is.
    pub fn join(&self, other: &Table, columns: &Vec<String>) -> (r: Result<
        (Vec<u32>, Vec<u32>),
        TableError,
    >)
        requires
            self.wf(),
            other.wf(),
        ensures
            r is Ok <==> self.can_relate(other, columns@),
            r matches Ok(sides) ==> sides.0.len() == sides.1.len() && if self.spec_num_rows()
                > other.spec_num_rows() {
                zipped(sides.0@, sides.1@) == join_pairs(
                    self.key_cols(key_columns(self.fields@, columns@)),
                    other.key_cols(key_columns(self.fields@, columns@)),
                    other.spec_num_rows() as int,
                    self.spec_num_rows() as int,
                )
            } else {
                zipped(sides.1@, sides.0@) == join_pairs(
                    other.key_cols(key_columns(self.fields@, columns@)),
                    self.key_cols(key_columns(self.fields@, columns@)),
                    self.spec_num_rows() as int,
                    other.spec_num_rows() as int,
                )
            },
            r matches Err(e) ==> e == self.relate_error(other, columns@),
    {
        let sides = match self.key_sides(other, columns) {
            Err(e) => {
                return Err(e);
            },
            Ok(sides) => sides,
        };
        join_arrays(&sides.left, &sides.right)
    }
}

} // verus!
