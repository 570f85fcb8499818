//! Chunks: row-aligned tuples of columns.

use crate::column::{all_below, gather, ColumnArray};
use crate::datatypes::{CellView, TableError};
use vstd::prelude::*;

verus! {

/// An ordered tuple of columns of one length, the chunk's row count.
#[derive(Debug, PartialEq, Eq)]
pub struct Chunk {
    pub columns: Vec<ColumnArray>,
}

/// A row: one cell per column.
pub type Row = Seq<CellView>;

impl Chunk {
    /// The number of rows: the length of every column, 0 where there is none.
    pub open spec fn spec_len(&self) -> nat {
        if self.columns.len() == 0 {
            0
        } else {
            self.columns[0]@.len()
        }
    }

    /// Every column is well formed and all have the same length.
    pub open spec fn wf(&self) -> bool {
        forall|c: int|
            0 <= c < self.columns.len() ==> (#[trigger] self.columns[c]).wf() && self.columns[c]@.len()
                == self.spec_len()
    }

    /// Row `r`.
    pub open spec fn row(&self, r: int) -> Row {
        Seq::new(self.columns.len() as nat, |c: int| self.columns[c]@[r])
    }

    /// The rows, top to bottom.
    pub open spec fn rows(&self) -> Seq<Row> {
        Seq::new(self.spec_len(), |r: int| self.row(r))
    }

    /// Whether `other` has the same columns, by type and by cells.
    pub open spec fn same(&self, other: &Chunk) -> bool {
        &&& self.columns.len() == other.columns.len()
        &&& forall|c: int|
            0 <= c < self.columns.len() ==> (#[trigger] self.columns[c])@ == other.columns[c]@
                && self.columns[c].data_type == other.columns[c].data_type
    }

    /// Builds a chunk, refusing columns of unequal length.
    pub fn new(columns: Vec<ColumnArray>) -> (r: Result<Chunk, TableError>)
        requires
            forall|c: int| 0 <= c < columns.len() ==> (#[trigger] columns[c]).wf(),
        ensures
            r is Ok <==> forall|c: int|
                0 <= c < columns.len() ==> (#[trigger] columns[c])@.len() == columns[0]@.len(),
            r matches Ok(chunk) ==> chunk.wf() && chunk.columns == columns,
            r matches Err(e) ==> e is SchemaMismatch,
    {
        let mut c: usize = 1;
        while c < columns.len()
            invariant
                1 <= c,
                c <= columns.len() || columns.len() == 0,
                forall|j: int|
                    0 <= j < c && j < columns.len() ==> (#[trigger] columns[j])@.len()
                        == columns[0]@.len(),
            decreases columns.len() - c,
        {
            if columns[c].len() != columns[0].len() {
                return Err(TableError::SchemaMismatch);
            }
            c += 1;
        }
        Ok(Chunk { columns })
    }

    /// The number of rows.
    pub fn len(&self) -> (n: usize)
        ensures
            n == self.spec_len(),
    {
        if self.columns.len() == 0 {
            0
        } else {
            self.columns[0].len()
        }
    }

    /// The columns, in field order.
    pub fn columns(&self) -> (c: &Vec<ColumnArray>)
        ensures
            c == &self.columns,
    {
        &self.columns
    }
}

impl Clone for Chunk {
    fn clone(&self) -> (c: Self)
        ensures
            c.same(self),
    {
        let mut columns: Vec<ColumnArray> = Vec::new();
        let mut i: usize = 0;
        while i < self.columns.len()
            invariant
                i <= self.columns.len(),
                columns.len() == i,
                forall|j: int|
                    0 <= j < i ==> (#[trigger] columns[j])@ == self.columns[j]@
                        && columns[j].data_type == self.columns[j].data_type,
            decreases self.columns.len() - i,
        {
            columns.push(self.columns[i].clone());
            i += 1;
        }
        Chunk { columns }
    }
}

/// Chunks with the same columns are well formed together and have the same
/// rows.
pub proof fn lemma_same_chunk(a: &Chunk, b: &Chunk)
    requires
        a.same(b),
    ensures
        a.wf() == b.wf(),
        a.spec_len() == b.spec_len(),
        a.rows() == b.rows(),
{
    assert(a.spec_len() == b.spec_len());
    assert forall|r: int| 0 <= r < a.spec_len() implies a.row(r) == b.row(r) by {
        assert(a.row(r) =~= b.row(r));
    }
    assert(a.rows() =~= b.rows());
    if a.wf() {
        assert forall|c: int| 0 <= c < b.columns.len() implies (#[trigger] b.columns[c]).wf()
            && b.columns[c]@.len() == b.spec_len() by {
            assert(a.columns[c].wf());
            assert forall|i: int| 0 <= i < b.columns[c].cells.len() implies b.columns[c].data_type.admits(
             #[trigger] b.columns[c]@[i]) by {
                assert(a.columns[c]@[i] == b.columns[c]@[i]);
            }
        }
    }
    if b.wf() {
        assert forall|c: int| 0 <= c < a.columns.len() implies (#[trigger] a.columns[c]).wf()
            && a.columns[c]@.len() == a.spec_len() by {
            assert(b.columns[c].wf());
            assert forall|i: int| 0 <= i < a.columns[c].cells.len() implies a.columns[c].data_type.admits(
             #[trigger] a.columns[c]@[i]) by {
                assert(a.columns[c]@[i] == b.columns[c]@[i]);
            }
        }
    }
}

/// Gather by index on every column of a chunk: row `idxs[i]` becomes row `i`.
pub fn chunk_take(chunk: &Chunk, idxs: &Vec<u32>) -> (r: Result<Chunk, TableError>)
    requires
        chunk.wf(),
    ensures
        r is Ok <==> chunk.columns.len() == 0 || all_below(idxs@, chunk.spec_len() as int),
        r matches Ok(out) ==> out.wf() && out.columns.len() == chunk.columns.len() && (forall|
            c: int,
        |
            0 <= c < out.columns.len() ==> (#[trigger] out.columns[c])@ == gather(
                chunk.columns[c]@,
                idxs@,
            ) && out.columns[c].data_type == chunk.columns[c].data_type) && (chunk.columns.len()
            > 0 ==> out.rows() == gather(chunk.rows(), idxs@)),
        r matches Err(e) ==> e is IndexOutOfRange,
{
    let mut columns: Vec<ColumnArray> = Vec::new();
    let mut c: usize = 0;
    while c < chunk.columns.len()
        invariant
            c <= chunk.columns.len(),
            chunk.wf(),
            columns.len() == c,
            c > 0 ==> all_below(idxs@, chunk.spec_len() as int),
            forall|j: int|
                0 <= j < c ==> (#[trigger] columns[j]).wf() && columns[j]@ == gather(
                    chunk.columns[j]@,
                    idxs@,
                ) && columns[j].data_type == chunk.columns[j].data_type,
        decreases chunk.columns.len() - c,
    {
        match chunk.columns[c].take(idxs) {
            Ok(column) => {
                columns.push(column);
            },
            Err(e) => {
                return Err(e);
            },
        }
        c += 1;
    }
    let out = Chunk { columns };
    proof {
        if chunk.columns.len() > 0 {
            assert(out.spec_len() == idxs@.len());
            assert forall|r: int| 0 <= r < idxs@.len() implies out.row(r) == chunk.row(
                idxs@[r] as int,
            ) by {
                assert(out.row(r) =~= chunk.row(idxs@[r] as int));
            }
            assert(out.rows() =~= gather(chunk.rows(), idxs@));
        }
    }
    Ok(out)
}

/// The smaller of two counts.
pub open spec fn min_nat(a: nat, b: nat) -> nat {
    if a <= b {
        a
    } else {
        b
    }
}

/// The first `n` rows of a chunk, or all of them where it has fewer.
pub fn chunk_head(chunk: &Chunk, n: &usize) -> (out: Chunk)
    requires
        chunk.wf(),
    ensures
        out.wf(),
        out.columns.len() == chunk.columns.len(),
        out.spec_len() == min_nat(chunk.spec_len(), *n as nat),
        forall|c: int|
            0 <= c < out.columns.len() ==> (#[trigger] out.columns[c])@
                == chunk.columns[c]@.subrange(0, out.spec_len() as int)
                && out.columns[c].data_type == chunk.columns[c].data_type,
        out.rows() == chunk.rows().subrange(0, out.spec_len() as int),
{
    let len = chunk.len();
    let keep: usize = if len <= *n {
        len
    } else {
        *n
    };
    let mut columns: Vec<ColumnArray> = Vec::new();
    let mut c: usize = 0;
    while c < chunk.columns.len()
        invariant
            c <= chunk.columns.len(),
            chunk.wf(),
            keep <= chunk.spec_len(),
            columns.len() == c,
            forall|j: int|
                0 <= j < c ==> (#[trigger] columns[j]).wf() && columns[j]@
                    == chunk.columns[j]@.subrange(0, keep as int) && columns[j].data_type
                    == chunk.columns[j].data_type,
        decreases chunk.columns.len() - c,
    {
        match chunk.columns[c].slice(0, keep) {
            Ok(column) => {
                columns.push(column);
            },
            Err(_) => {
                assert(false);
            },
        }
        c += 1;
    }
    let out = Chunk { columns };
    proof {
        assert forall|r: int| 0 <= r < out.spec_len() implies out.row(r) == chunk.row(r) by {
            assert(out.row(r) =~= chunk.row(r));
        }
        assert(out.rows() =~= chunk.rows().subrange(0, out.spec_len() as int));
    }
    out
}

} // verus!
