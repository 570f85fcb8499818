//! Tables: a list of fields over a list of chunks, and the operations on them.

use crate::chunks::{chunk_head, lemma_same_chunk, min_nat, Chunk, Row};
use crate::column::{all_below, gather, ColumnArray};
use crate::datatypes::{CellView, Field, TableError};
use crate::par::par_map_range;
use vstd::prelude::*;

verus! {

/// The rows of a list of chunks, chunk after chunk.
pub open spec fn rows_of(chunks: Seq<Chunk>) -> Seq<Row>
    decreases chunks.len(),
{
    if chunks.len() == 0 {
        Seq::empty()
    } else {
        rows_of(chunks.drop_last()) + chunks.last().rows()
    }
}

/// The sum of the lengths of a list of chunks.
pub open spec fn count_rows(chunks: Seq<Chunk>) -> nat
    decreases chunks.len(),
{
    if chunks.len() == 0 {
        0
    } else {
        count_rows(chunks.drop_last()) + chunks.last().spec_len()
    }
}

/// There are as many rows as the lengths of the chunks add up to.
pub proof fn lemma_rows_len(chunks: Seq<Chunk>)
    ensures
        rows_of(chunks).len() == count_rows(chunks),
    decreases chunks.len(),
{
    if chunks.len() > 0 {
        lemma_rows_len(chunks.drop_last());
    }
}

/// One more chunk adds its rows at the end.
pub proof fn lemma_rows_push(chunks: Seq<Chunk>, chunk: Chunk)
    ensures
        rows_of(chunks.push(chunk)) == rows_of(chunks) + chunk.rows(),
        count_rows(chunks.push(chunk)) == count_rows(chunks) + chunk.spec_len(),
{
    assert(chunks.push(chunk).drop_last() =~= chunks);
}

/// The rows of the first `k + 1` chunks are those of the first `k` followed by
/// those of chunk `k`; a prefix has no more rows than the whole list.
pub proof fn lemma_rows_prefix(chunks: Seq<Chunk>, k: int)
    requires
        0 <= k < chunks.len(),
    ensures
        rows_of(chunks.subrange(0, k + 1)) == rows_of(chunks.subrange(0, k)) + chunks[k].rows(),
        count_rows(chunks.subrange(0, k + 1)) == count_rows(chunks.subrange(0, k))
            + chunks[k].spec_len(),
        count_rows(chunks.subrange(0, k + 1)) <= count_rows(chunks),
    decreases chunks.len() - k,
{
    assert(chunks.subrange(0, k + 1).drop_last() =~= chunks.subrange(0, k));
    if k + 1 < chunks.len() {
        lemma_rows_prefix(chunks, k + 1);
    } else {
        assert(chunks.subrange(0, k + 1) =~= chunks);
    }
}

/// Rows of two lists of chunks, one after the other.
pub proof fn lemma_rows_concat(a: Seq<Chunk>, b: Seq<Chunk>)
    ensures
        rows_of(a + b) == rows_of(a) + rows_of(b),
        count_rows(a + b) == count_rows(a) + count_rows(b),
    decreases b.len(),
{
    if b.len() == 0 {
        assert(a + b =~= a);
        assert(rows_of(a) + rows_of(b) =~= rows_of(a));
    } else {
        lemma_rows_concat(a, b.drop_last());
        assert((a + b).drop_last() =~= a + b.drop_last());
        assert((rows_of(a) + rows_of(b.drop_last())) + b.last().rows() =~= rows_of(a) + (rows_of(
            b.drop_last(),
        ) + b.last().rows()));
    }
}

/// Whether two field lists agree field by field: name, type, nullability.
pub open spec fn same_fields(a: Seq<Field>, b: Seq<Field>) -> bool {
    &&& a.len() == b.len()
    &&& forall|i: int| 0 <= i < a.len() ==> (#[trigger] a[i]).same(&b[i])
}

/// Whether no two fields share a name.
pub open spec fn distinct_names(fields: Seq<Field>) -> bool {
    forall|i: int, j: int|
        0 <= i < j < fields.len() ==> (#[trigger] fields[i]).name@ != (#[trigger] fields[j]).name@
}

/// A copy of a field list.
pub fn clone_fields(fields: &Vec<Field>) -> (copy: Vec<Field>)
    ensures
        same_fields(copy@, fields@),
{
    let mut copy: Vec<Field> = Vec::new();
    let mut i: usize = 0;
    while i < fields.len()
        invariant
            i <= fields.len(),
            copy.len() == i,
            forall|j: int| 0 <= j < i ==> (#[trigger] copy[j]).same(&fields[j]),
        decreases fields.len() - i,
    {
        copy.push(fields[i].clone());
        i += 1;
    }
    copy
}

/// A list of fields over a list of chunks that each carry one column per
/// field, of the field's type.
#[derive(Debug, PartialEq, Eq)]
pub struct Table {
    pub fields: Vec<Field>,
    pub chunks: Vec<Chunk>,
}

/// Whether a chunk carries one well-formed column per field, of the field's
/// type.
pub open spec fn fits(fields: Seq<Field>, chunk: &Chunk) -> bool {
    &&& chunk.wf()
    &&& chunk.columns.len() == fields.len()
    &&& forall|c: int|
        0 <= c < fields.len() ==> (#[trigger] chunk.columns[c]).data_type == fields[c].data_type
}

/// Runtime form of [`fits`].
pub fn chunk_fits(fields: &Vec<Field>, chunk: &Chunk) -> (b: bool)
    requires
        chunk.wf(),
    ensures
        b == fits(fields@, chunk),
{
    if chunk.columns.len() != fields.len() {
        return false;
    }
    let mut c: usize = 0;
    while c < fields.len()
        invariant
            c <= fields.len(),
            chunk.columns.len() == fields.len(),
            forall|j: int|
                0 <= j < c ==> (#[trigger] chunk.columns[j]).data_type == fields[j].data_type,
        decreases fields.len() - c,
    {
        if chunk.columns[c].data_type() != fields[c].data_type {
            return false;
        }
        c += 1;
    }
    true
}

/// Whether the names of a field list are pairwise distinct.
pub fn names_distinct(fields: &Vec<Field>) -> (b: bool)
    ensures
        b == distinct_names(fields@),
{
    let mut j: usize = 0;
    while j < fields.len()
        invariant
            j <= fields.len(),
            forall|a: int, b: int|
                0 <= a < b < j ==> (#[trigger] fields[a]).name@ != (#[trigger] fields[b]).name@,
        decreases fields.len() - j,
    {
        let mut i: usize = 0;
        while i < j
            invariant
                i <= j < fields.len(),
                forall|a: int| 0 <= a < i ==> (#[trigger] fields[a]).name@ != fields[j as int].name@,
            decreases j - i,
        {
            if fields[i].name == fields[j].name {
                return false;
            }
            i += 1;
        }
        j += 1;
    }
    true
}

impl Table {
    /// Field names are distinct, every chunk fits the fields, and the rows
    /// can be counted.
    pub open spec fn wf(&self) -> bool {
        &&& distinct_names(self.fields@)
        &&& forall|i: int| 0 <= i < self.chunks.len() ==> fits(self.fields@, #[trigger] &self.chunks[i])
        &&& count_rows(self.chunks@) <= usize::MAX
    }

    /// The rows, top to bottom.
    pub open spec fn rows(&self) -> Seq<Row> {
        rows_of(self.chunks@)
    }

    /// The number of rows: the sum of the chunks' lengths.
    pub open spec fn spec_num_rows(&self) -> nat {
        count_rows(self.chunks@)
    }

    /// Builds a table, refusing field lists that repeat a name, chunks that
    /// do not fit the fields, and more rows than can be counted.
    pub fn new(fields: Vec<Field>, chunks: Vec<Chunk>) -> (r: Result<Table, TableError>)
        requires
            forall|i: int| 0 <= i < chunks.len() ==> (#[trigger] chunks[i]).wf(),
        ensures
            r is Ok <==> distinct_names(fields@) && (forall|i: int|
                0 <= i < chunks.len() ==> fits(fields@, #[trigger] &chunks[i])) && count_rows(
                chunks@,
            ) <= usize::MAX,
            r matches Ok(t) ==> t.wf() && t.fields == fields && t.chunks == chunks,
            r matches Err(e) ==> if distinct_names(fields@) && (forall|i: int|
                0 <= i < chunks.len() ==> fits(fields@, #[trigger] &chunks[i])) {
                e is Overflow
            } else {
                e is SchemaMismatch
            },
    {
        if !names_distinct(&fields) {
            return Err(TableError::SchemaMismatch);
        }
        let mut i: usize = 0;
        while i < chunks.len()
            invariant
                i <= chunks.len(),
                forall|j: int| 0 <= j < chunks.len() ==> (#[trigger] chunks[j]).wf(),
                forall|j: int| 0 <= j < i ==> fits(fields@, #[trigger] &chunks[j]),
            decreases chunks.len() - i,
        {
            if !chunk_fits(&fields, &chunks[i]) {
                return Err(TableError::SchemaMismatch);
            }
            i += 1;
        }
        let mut total: usize = 0;
        let mut i: usize = 0;
        assert(chunks@.subrange(0, 0) =~= Seq::empty());
        while i < chunks.len()
            invariant
                i <= chunks.len(),
                distinct_names(fields@),
                forall|j: int| 0 <= j < chunks.len() ==> fits(fields@, #[trigger] &chunks[j]),
                total == count_rows(chunks@.subrange(0, i as int)),
            decreases chunks.len() - i,
        {
            proof {
                lemma_rows_prefix(chunks@, i as int);
            }
            let len = chunks[i].len();
            if len > usize::MAX - total {
                return Err(TableError::Overflow);
            }
            total = total + len;
            i += 1;
        }
        assert(chunks@.subrange(0, chunks.len() as int) =~= chunks@);
        Ok(Table { fields, chunks })
    }

    /// The field names, in field order.
    pub fn columns(&self) -> (names: Vec<&String>)
        ensures
            names.len() == self.fields.len(),
            forall|i: int| 0 <= i < names.len() ==> (#[trigger] names[i])@ == self.fields[i].name@,
    {
        let mut names: Vec<&String> = Vec::new();
        let mut i: usize = 0;
        while i < self.fields.len()
            invariant
                i <= self.fields.len(),
                names.len() == i,
                forall|j: int| 0 <= j < i ==> (#[trigger] names[j])@ == self.fields[j].name@,
            decreases self.fields.len() - i,
        {
            names.push(&self.fields[i].name);
            i += 1;
        }
        names
    }

    /// The number of rows.
    pub fn num_rows(&self) -> (n: usize)
        requires
            self.wf(),
        ensures
            n == self.spec_num_rows(),
            n == self.rows().len(),
    {
        let mut total: usize = 0;
        let mut i: usize = 0;
        assert(self.chunks@.subrange(0, 0) =~= Seq::empty());
        while i < self.chunks.len()
            invariant
                i <= self.chunks.len(),
                count_rows(self.chunks@) <= usize::MAX,
                total == count_rows(self.chunks@.subrange(0, i as int)),
            decreases self.chunks.len() - i,
        {
            proof {
                lemma_rows_prefix(self.chunks@, i as int);
            }
            total = total + self.chunks[i].len();
            i += 1;
        }
        proof {
            assert(self.chunks@.subrange(0, self.chunks.len() as int) =~= self.chunks@);
            lemma_rows_len(self.chunks@);
        }
        total
    }

    /// The number of rows.
    pub fn len(&self) -> (n: usize)
        requires
            self.wf(),
        ensures
            n == self.spec_num_rows(),
    {
        self.num_rows()
    }

    /// Checks that `other` has the same fields: names, types, nullability.
    pub fn table_eq(&self, other: &Table) -> (r: Result<(), TableError>)
        ensures
            r is Ok <==> same_fields(self.fields@, other.fields@),
            r matches Err(e) ==> e is SchemaMismatch,
    {
        if self.fields.len() != other.fields.len() {
            return Err(TableError::SchemaMismatch);
        }
        let mut i: usize = 0;
        while i < self.fields.len()
            invariant
                i <= self.fields.len(),
                self.fields.len() == other.fields.len(),
                forall|j: int| 0 <= j < i ==> (#[trigger] self.fields[j]).same(&other.fields[j]),
            decreases self.fields.len() - i,
        {
            if !self.fields[i].same_as(&other.fields[i]) {
                return Err(TableError::SchemaMismatch);
            }
            i += 1;
        }
        Ok(())
    }

    /// Where the field named `column` stands among the fields.
    pub fn position(&self, column: &String) -> (r: Result<usize, TableError>)
        ensures
            r is Ok <==> exists|i: int|
                0 <= i < self.fields.len() && (#[trigger] self.fields[i]).name@ == column@,
            r matches Ok(i) ==> i < self.fields.len() && self.fields[i as int].name@ == column@
                && forall|j: int| 0 <= j < i ==> (#[trigger] self.fields[j]).name@ != column@,
            r matches Err(e) ==> e == TableError::ColumnNotFound(*column),
    {
        let mut i: usize = 0;
        while i < self.fields.len()
            invariant
                i <= self.fields.len(),
                forall|j: int| 0 <= j < i ==> (#[trigger] self.fields[j]).name@ != column@,
            decreases self.fields.len() - i,
        {
            if self.fields[i].name == *column {
                return Ok(i);
            }
            i += 1;
        }
        Err(TableError::ColumnNotFound(column.clone()))
    }
}

/// Whether two lists of chunks agree chunk by chunk: same columns, by type
/// and by cells.
pub open spec fn same_chunks(a: Seq<Chunk>, b: Seq<Chunk>) -> bool {
    &&& a.len() == b.len()
    &&& forall|i: int| 0 <= i < a.len() ==> (#[trigger] a[i]).same(&b[i])
}

/// Lists of chunks that agree chunk by chunk have the same rows.
pub proof fn lemma_same_chunks(a: Seq<Chunk>, b: Seq<Chunk>)
    requires
        same_chunks(a, b),
    ensures
        rows_of(a) == rows_of(b),
        count_rows(a) == count_rows(b),
    decreases a.len(),
{
    if a.len() > 0 {
        assert(same_chunks(a.drop_last(), b.drop_last()));
        lemma_same_chunks(a.drop_last(), b.drop_last());
        assert(a.last().same(&b.last()));
        lemma_same_chunk(&a.last(), &b.last());
    }
}

/// A chunk that fits a field list fits every list that agrees with it, and
/// so does every chunk with the same columns.
pub proof fn lemma_fits_same(fields: Seq<Field>, chunk: &Chunk, fields2: Seq<Field>, chunk2: &Chunk)
    requires
        fits(fields, chunk),
        same_fields(fields, fields2),
        chunk.same(chunk2),
    ensures
        fits(fields2, chunk2),
{
    lemma_same_chunk(chunk, chunk2);
    assert forall|c: int| 0 <= c < fields2.len() implies (#[trigger] chunk2.columns[c]).data_type
        == fields2[c].data_type by {
        assert(chunk.columns[c].data_type == fields[c].data_type);
        assert(fields[c].same(&fields2[c]));
    }
}

/// Field lists that agree are distinct in their names together.
pub proof fn lemma_distinct_same(a: Seq<Field>, b: Seq<Field>)
    requires
        same_fields(a, b),
        distinct_names(a),
    ensures
        distinct_names(b),
{
    assert forall|i: int, j: int| 0 <= i < j < b.len() implies (#[trigger] b[i]).name@ != (
    #[trigger] b[j]).name@ by {
        assert(a[i].same(&b[i]));
        assert(a[j].same(&b[j]));
    }
}

impl Clone for Table {
    fn clone(&self) -> (t: Self)
        ensures
            same_fields(t.fields@, self.fields@),
            same_chunks(t.chunks@, self.chunks@),
            self.wf() ==> t.wf(),
            t.rows() == self.rows(),
    {
        let fields = clone_fields(&self.fields);
        let mut chunks: Vec<Chunk> = Vec::new();
        let mut i: usize = 0;
        while i < self.chunks.len()
            invariant
                i <= self.chunks.len(),
                chunks.len() == i,
                forall|j: int| 0 <= j < i ==> (#[trigger] chunks[j]).same(&self.chunks[j]),
            decreases self.chunks.len() - i,
        {
            chunks.push(self.chunks[i].clone());
            i += 1;
        }
        proof {
            lemma_same_chunks(chunks@, self.chunks@);
            if self.wf() {
                lemma_distinct_same(self.fields@, fields@);
                assert forall|i: int| 0 <= i < chunks.len() implies fits(
                    fields@,
                    #[trigger] &chunks[i],
                ) by {
                    assert(fits(self.fields@, &self.chunks[i]));
                    lemma_fits_same(self.fields@, &self.chunks[i], fields@, &chunks[i]);
                }
            }
        }
        Table { fields, chunks }
    }
}

impl Table {
    /// The cells of column `c`, top to bottom.
    pub open spec fn column_cells(&self, c: int) -> Seq<CellView> {
        self.rows().map_values(|row: Row| row[c])
    }

    /// How many of the rows of chunk `i` are among the first `n` rows.
    pub open spec fn head_len(&self, i: int, n: nat) -> nat {
        let before = count_rows(self.chunks@.subrange(0, i));
        if before >= n {
            0
        } else {
            min_nat(self.chunks[i].spec_len(), (n - before) as nat)
        }
    }

    /// The first `n` rows: the chunks in order, each whole as long as the
    /// budget allows, the last one cut; no chunk follows the one that uses
    /// the budget up.
    pub fn head(&self, n: &usize) -> (out: Table)
        requires
            self.wf(),
        ensures
            out.wf(),
            same_fields(out.fields@, self.fields@),
            out.rows() == self.rows().subrange(
                0,
                min_nat(*n as nat, self.spec_num_rows()) as int,
            ),
            out.spec_num_rows() == min_nat(*n as nat, self.spec_num_rows()),
            out.chunks.len() <= self.chunks.len(),
            forall|i: int|
                0 <= i < out.chunks.len() ==> (#[trigger] out.chunks[i]).rows()
                    == self.chunks[i].rows().subrange(0, self.head_len(i, *n as nat) as int),
            out.chunks.len() == self.chunks.len() || count_rows(
                self.chunks@.subrange(0, out.chunks.len() as int),
            ) >= *n,
            out.chunks.len() > 1 ==> count_rows(
                self.chunks@.subrange(0, out.chunks.len() - 1),
            ) < *n,
            self.chunks.len() > 0 ==> out.chunks.len() > 0,
    {
        let fields = clone_fields(&self.fields);
        let mut remaining: usize = *n;
        let mut chunks: Vec<Chunk> = Vec::new();
        let mut i: usize = 0;
        let mut done = false;
        proof {
            assert(self.chunks@.subrange(0, 0) =~= Seq::empty());
            lemma_distinct_same(self.fields@, fields@);
            assert(rows_of(chunks@) =~= self.rows().subrange(0, 0));
        }
        while i < self.chunks.len() && !done
            invariant
                i <= self.chunks.len(),
                self.wf(),
                same_fields(self.fields@, fields@),
                chunks.len() == i,
                forall|j: int| 0 <= j < i ==> fits(fields@, #[trigger] &chunks[j]),
                forall|j: int|
                    0 <= j < i ==> (#[trigger] chunks[j]).rows() == self.chunks[j].rows().subrange(
                        0,
                        self.head_len(j, *n as nat) as int,
                    ),
                count_rows(self.chunks@.subrange(0, i as int)) >= *n ==> remaining == 0,
                count_rows(self.chunks@.subrange(0, i as int)) < *n ==> remaining == *n
                    - count_rows(self.chunks@.subrange(0, i as int)),
                done ==> remaining == 0 && i > 0,
                i > 0 && !done ==> remaining > 0,
                i > 1 ==> count_rows(self.chunks@.subrange(0, i - 1)) < *n,
                count_rows(chunks@) == min_nat(
                    *n as nat,
                    count_rows(self.chunks@.subrange(0, i as int)),
                ),
                rows_of(chunks@) == rows_of(self.chunks@.subrange(0, i as int)).subrange(
                    0,
                    count_rows(chunks@) as int,
                ),
            decreases self.chunks.len() - i,
        {
            let chunk = &self.chunks[i];
            let ghost old_chunks = chunks@;
            proof {
                lemma_rows_prefix(self.chunks@, i as int);
                assert(fits(self.fields@, chunk));
                lemma_rows_len(self.chunks@.subrange(0, i as int));
                lemma_rows_len(self.chunks@.subrange(0, i + 1));
                lemma_rows_len(old_chunks);
            }
            let piece = if chunk.len() > remaining {
                let piece = chunk_head(chunk, &remaining);
                remaining = 0;
                piece
            } else {
                remaining = remaining - chunk.len();
                let piece = chunk.clone();
                proof {
                    lemma_same_chunk(&piece, chunk);
                    assert(chunk.rows().subrange(0, chunk.spec_len() as int) =~= chunk.rows());
                }
                piece
            };
            proof {
                assert(piece.rows() == chunk.rows().subrange(
                    0,
                    self.head_len(i as int, *n as nat) as int,
                ));
                assert(fits(fields@, &piece)) by {
                    assert forall|c: int| 0 <= c < fields.len() implies (
                    #[trigger] piece.columns[c]).data_type == fields[c].data_type by {
                        assert(chunk.columns[c].data_type == self.fields[c].data_type);
                        assert(self.fields[c].same(&fields[c]));
                    }
                }
                lemma_rows_push(old_chunks, piece);
                let full = rows_of(self.chunks@.subrange(0, i as int));
                assert(rows_of(old_chunks.push(piece)) =~= (full + chunk.rows()).subrange(
                    0,
                    count_rows(old_chunks.push(piece)) as int,
                ));
            }
            chunks.push(piece);
            i += 1;
            if remaining == 0 {
                done = true;
            }
        }
        proof {
            lemma_rows_len(self.chunks@);
            let upto = self.chunks@.subrange(0, i as int);
            if i < self.chunks.len() {
                lemma_head_rest(self.chunks@, i as int);
                lemma_rows_len(upto);
            } else {
                assert(upto =~= self.chunks@);
            }
            lemma_rows_len(chunks@);
        }
        Table { fields, chunks }
    }
}

/// The rows of a prefix of the chunks are a prefix of the rows.
pub proof fn lemma_head_rest(chunks: Seq<Chunk>, k: int)
    requires
        0 <= k <= chunks.len(),
    ensures
        count_rows(chunks.subrange(0, k)) <= count_rows(chunks),
        rows_of(chunks.subrange(0, k)) == rows_of(chunks).subrange(
            0,
            count_rows(chunks.subrange(0, k)) as int,
        ),
{
    let a = chunks.subrange(0, k);
    let b = chunks.subrange(k, chunks.len() as int);
    assert(a + b =~= chunks);
    lemma_rows_concat(a, b);
    lemma_rows_len(a);
    assert(rows_of(a) =~= (rows_of(a) + rows_of(b)).subrange(0, rows_of(a).len() as int));
}

/// The cells of column `c` of a list of chunks are the cells of that column
/// chunk after chunk.
pub proof fn lemma_column_push(chunks: Seq<Chunk>, chunk: Chunk, c: int)
    requires
        chunk.wf(),
        0 <= c < chunk.columns.len(),
    ensures
        rows_of(chunks.push(chunk)).map_values(|row: Row| row[c]) == rows_of(chunks).map_values(
            |row: Row| row[c],
        ) + chunk.columns[c]@,
{
    lemma_rows_push(chunks, chunk);
    assert(chunk.rows().map_values(|row: Row| row[c]) =~= chunk.columns[c]@);
    assert((rows_of(chunks) + chunk.rows()).map_values(|row: Row| row[c]) =~= rows_of(
        chunks,
    ).map_values(|row: Row| row[c]) + chunk.rows().map_values(|row: Row| row[c]));
}

impl Table {
    /// Appends the chunks of `other`, which is left without chunks. Refused
    /// where the fields differ or the rows could no longer be counted.
    pub fn append(&mut self, other: &mut Table) -> (r: Result<(), TableError>)
        requires
            old(self).wf(),
            old(other).wf(),
        ensures
            r is Ok <==> same_fields(old(self).fields@, old(other).fields@)
                && old(self).spec_num_rows() + old(other).spec_num_rows() <= usize::MAX,
            r is Ok ==> final(self).wf() && final(self).fields == old(self).fields,
            r is Ok ==> final(self).chunks@ == old(self).chunks@ + old(other).chunks@,
            r is Ok ==> final(other).chunks@.len() == 0 && final(other).fields == old(other).fields,
            r is Ok ==> final(self).rows() == old(self).rows() + old(other).rows(),
            r is Ok ==> final(self).spec_num_rows() == old(self).spec_num_rows()
                + old(other).spec_num_rows(),
            r is Err ==> *final(self) == *old(self) && *final(other) == *old(other),
            r matches Err(e) ==> (e is SchemaMismatch || e is Overflow) && (e is SchemaMismatch
                <==> !same_fields(old(self).fields@, old(other).fields@)),
    {
        match self.table_eq(other) {
            Err(e) => {
                return Err(e);
            },
            Ok(()) => {},
        }
        let mine = self.num_rows();
        let theirs = other.num_rows();
        if theirs > usize::MAX - mine {
            return Err(TableError::Overflow);
        }
        proof {
            lemma_rows_concat(self.chunks@, other.chunks@);
            assert forall|i: int| 0 <= i < other.chunks.len() implies fits(
                self.fields@,
                #[trigger] &other.chunks[i],
            ) by {
                assert(fits(other.fields@, &other.chunks[i]));
                assert forall|c: int| 0 <= c < self.fields.len() implies (
                #[trigger] other.chunks[i].columns[c]).data_type == self.fields[c].data_type by {
                    assert(self.fields[c].same(&other.fields[c]));
                }
            }
        }
        self.chunks.append(&mut other.chunks);
        Ok(())
    }

    /// Column `c` as one contiguous column, the chunks end to end.
    pub fn column_at(&self, c: usize) -> (column: ColumnArray)
        requires
            self.wf(),
            c < self.fields.len(),
        ensures
            column.wf(),
            column.data_type == self.fields[c as int].data_type,
            column@ == self.column_cells(c as int),
    {
        let mut column = ColumnArray::empty(self.fields[c].data_type);
        let mut i: usize = 0;
        proof {
            assert(self.chunks@.subrange(0, 0) =~= Seq::empty());
            assert(column@ =~= rows_of(self.chunks@.subrange(0, 0)).map_values(
                |row: Row| row[c as int],
            ));
        }
        while i < self.chunks.len()
            invariant
                i <= self.chunks.len(),
                self.wf(),
                c < self.fields.len(),
                column.wf(),
                column.data_type == self.fields[c as int].data_type,
                column@ == rows_of(self.chunks@.subrange(0, i as int)).map_values(
                    |row: Row| row[c as int],
                ),
            decreases self.chunks.len() - i,
        {
            proof {
                assert(fits(self.fields@, &self.chunks[i as int]));
                lemma_column_push(
                    self.chunks@.subrange(0, i as int),
                    self.chunks[i as int],
                    c as int,
                );
                assert(self.chunks@.subrange(0, i as int).push(self.chunks[i as int])
                    =~= self.chunks@.subrange(0, i + 1));
            }
            column.extend(&self.chunks[i].columns[c]);
            i += 1;
        }
        assert(self.chunks@.subrange(0, self.chunks.len() as int) =~= self.chunks@);
        column
    }

    /// The named column as one contiguous column, the chunks end to end.
    pub fn column(&self, column: &String) -> (r: Result<ColumnArray, TableError>)
        requires
            self.wf(),
        ensures
            r is Ok <==> exists|i: int|
                0 <= i < self.fields.len() && (#[trigger] self.fields[i]).name@ == column@,
            r matches Ok(col) ==> col.wf() && exists|i: int|
                0 <= i < self.fields.len() && (#[trigger] self.fields[i]).name@ == column@
                    && col.data_type == self.fields[i].data_type && col@ == self.column_cells(i),
            r matches Err(e) ==> e == TableError::ColumnNotFound(*column),
    {
        match self.position(column) {
            Ok(c) => Ok(self.column_at(c)),
            Err(e) => Err(e),
        }
    }

    /// Column `c` gathered by index over the whole table.
    pub fn take_column(&self, c: usize, idxs: &Vec<u32>) -> (r: Result<ColumnArray, TableError>)
        requires
            self.wf(),
            c < self.fields.len(),
        ensures
            r is Ok <==> all_below(idxs@, self.spec_num_rows() as int),
            r matches Ok(col) ==> col.wf() && col.data_type == self.fields[c as int].data_type
                && col@ == gather(self.column_cells(c as int), idxs@),
            r matches Err(e) ==> e is IndexOutOfRange,
    {
        proof {
            lemma_rows_len(self.chunks@);
        }
        if self.chunks.len() == 1 {
            proof {
                assert(fits(self.fields@, &self.chunks[0]));
                assert(self.chunks@.drop_last() =~= Seq::empty());
                assert(rows_of(self.chunks@.drop_last()) =~= Seq::empty());
                assert(self.chunks@.last() == self.chunks[0]);
                assert(rows_of(self.chunks@) =~= self.chunks[0].rows());
                assert(self.column_cells(c as int) =~= self.chunks[0].columns[c as int]@);
            }
            self.chunks[0].columns[c].take(idxs)
        } else {
            let whole = self.column_at(c);
            whole.take(idxs)
        }
    }

    /// Gather by index over the whole table: row `idxs[i]` becomes row `i` of
    /// a table of one chunk. The columns are gathered side by side.
    pub fn take(&self, idxs: Vec<u32>) -> (r: Result<Table, TableError>)
        requires
            self.wf(),
        ensures
            r is Ok <==> self.fields.len() == 0 || all_below(
                idxs@,
                self.spec_num_rows() as int,
            ),
            r matches Ok(t) ==> t.wf() && same_fields(t.fields@, self.fields@) && t.chunks.len()
                == 1 && (self.fields.len() > 0 ==> t.rows() == gather(self.rows(), idxs@)
                && t.spec_num_rows() == idxs@.len()),
            r matches Err(e) ==> e is IndexOutOfRange,
    {
        let fields = clone_fields(&self.fields);
        let rows = self.num_rows();
        if self.fields.len() > 0 {
            let mut i: usize = 0;
            while i < idxs.len()
                invariant
                    i <= idxs.len(),
                    rows == self.spec_num_rows(),
                    self.fields.len() > 0,
                    forall|j: int| 0 <= j < i ==> (#[trigger] idxs[j]) < rows,
                decreases idxs.len() - i,
            {
                if idxs[i] as usize >= rows {
                    assert(!(idxs@[i as int] < self.spec_num_rows()));
                    return Err(TableError::IndexOutOfRange);
                }
                i += 1;
            }
        }
        let gather_column = (|c: usize| -> (col: ColumnArray)
            requires
                self.fields.len() > c,
            ensures
                col.wf(),
                col.data_type == self.fields[c as int].data_type,
                col@ == gather(self.column_cells(c as int), idxs@),
            {
                match self.take_column(c, &idxs) {
                    Ok(col) => col,
                    Err(_) => {
                        assert(false);
                        ColumnArray::empty(self.fields[c].data_type)
                    },
                }
            });
        let columns = par_map_range(self.fields.len(), gather_column);
        let chunk = Chunk { columns };
        let mut chunks: Vec<Chunk> = Vec::new();
        proof {
            lemma_rows_len(self.chunks@);
            lemma_distinct_same(self.fields@, fields@);
            assert(chunk.wf());
            assert(fits(fields@, &chunk)) by {
                assert forall|c: int| 0 <= c < fields.len() implies (
                #[trigger] chunk.columns[c]).data_type == fields[c].data_type by {
                    assert(self.fields[c].same(&fields[c]));
                }
            }
            lemma_rows_push(Seq::empty(), chunk);
            assert(Seq::<Chunk>::empty().push(chunk) =~= seq![chunk]);
            if self.fields.len() > 0 {
                assert(chunk.spec_len() == idxs@.len());
                assert forall|r: int| 0 <= r < idxs@.len() implies chunk.row(r) == self.rows()[idxs@[r] as int] by {
                    lemma_rows_have_columns(self.fields@, self.chunks@, idxs@[r] as int);
                    assert(chunk.row(r) =~= self.rows()[idxs@[r] as int]);
                }
                assert(chunk.rows() =~= gather(self.rows(), idxs@));
                assert(Seq::<Row>::empty() + chunk.rows() =~= chunk.rows());
            }
        }
        chunks.push(chunk);
        proof {
            lemma_rows_len(chunks@);
        }
        Ok(Table { fields, chunks })
    }
}

/// Every row of chunks that fit a field list has one cell per field.
pub proof fn lemma_rows_have_columns(fields: Seq<Field>, chunks: Seq<Chunk>, r: int)
    requires
        forall|i: int| 0 <= i < chunks.len() ==> fits(fields, #[trigger] &chunks[i]),
        0 <= r < rows_of(chunks).len(),
    ensures
        rows_of(chunks)[r].len() == fields.len(),
    decreases chunks.len(),
{
    if chunks.len() > 0 {
        let rest = chunks.drop_last();
        assert(fits(fields, &chunks[chunks.len() - 1]));
        if r < rows_of(rest).len() {
            assert forall|i: int| 0 <= i < rest.len() implies fits(fields, #[trigger] &rest[i]) by {
                assert(fits(fields, &chunks[i]));
            }
            lemma_rows_have_columns(fields, rest, r);
        }
    }
}

} // verus!
