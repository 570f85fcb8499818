//! Typed columns and the two primitives every relational kernel is built from:
//! gather by index and slicing.

use crate::datatypes::{Cell, CellView, DataType, TableError};
use vstd::prelude::*;

verus! {

/// A typed, null-aware sequence of cells.
#[derive(Debug, PartialEq, Eq)]
pub struct ColumnArray {
    pub data_type: DataType,
    pub cells: Vec<Cell>,
}

/// A key of a hash index: an integer, or `None` for the null key.
pub type Key = Option<i128>;

/// The keys a column's cells stand for, position by position.
pub open spec fn column_keys(column: Seq<CellView>) -> Seq<Key> {
    column.map_values(|c: CellView| ColumnArray::key_of(c))
}

/// The cells of `column` at the listed positions, in the order listed.
pub open spec fn gather<A>(column: Seq<A>, idxs: Seq<u32>) -> Seq<A> {
    Seq::new(idxs.len(), |i: int| column[idxs[i] as int])
}

/// Whether every listed position lies inside a column of `len` cells.
pub open spec fn all_below(idxs: Seq<u32>, len: int) -> bool {
    forall|i: int| 0 <= i < idxs.len() ==> (#[trigger] idxs[i]) < len
}

impl View for ColumnArray {
    type V = Seq<CellView>;

    open spec fn view(&self) -> Seq<CellView> {
        self.cells@.map_values(|c: Cell| c@)
    }
}

impl ColumnArray {
    /// Every cell is one the column's type admits.
    pub open spec fn wf(&self) -> bool {
        forall|i: int| 0 <= i < self.cells.len() ==> self.data_type.admits(#[trigger] self@[i])
    }

    /// Builds a column, refusing cells that the type does not admit.
    pub fn new(data_type: DataType, cells: Vec<Cell>) -> (r: Result<ColumnArray, TableError>)
        ensures
            r is Ok <==> forall|i: int|
                0 <= i < cells.len() ==> data_type.admits(#[trigger] cells[i]@),
            r matches Ok(c) ==> c.wf() && c.data_type == data_type && c.cells == cells,
            r matches Err(e) ==> e is SchemaMismatch,
    {
        let mut i: usize = 0;
        while i < cells.len()
            invariant
                i <= cells.len(),
                forall|j: int| 0 <= j < i ==> data_type.admits(#[trigger] cells[j]@),
            decreases cells.len() - i,
        {
            if !data_type.accepts(&cells[i]) {
                return Err(TableError::SchemaMismatch);
            }
            i += 1;
        }
        Ok(ColumnArray { data_type, cells })
    }

    /// A column with no cells.
    pub fn empty(data_type: DataType) -> (c: ColumnArray)
        ensures
            c.wf(),
            c.data_type == data_type,
            c@ == Seq::<CellView>::empty(),
    {
        ColumnArray { data_type, cells: Vec::new() }
    }

    /// The number of cells.
    pub fn len(&self) -> (n: usize)
        ensures
            n == self@.len(),
    {
        self.cells.len()
    }

    /// The element type.
    pub fn data_type(&self) -> (t: DataType)
        ensures
            t == self.data_type,
    {
        self.data_type
    }

    /// The integer key a cell stands for: `None` for a null cell.
    pub open spec fn key_of(c: CellView) -> Option<i128> {
        match c {
            CellView::Int(v) => Some(v as i128),
            _ => None,
        }
    }

    /// The cell at `i` read as a key.
    pub fn key_at(&self, i: usize) -> (k: Option<i128>)
        requires
            i < self@.len(),
        ensures
            k == Self::key_of(self@[i as int]),
    {
        match &self.cells[i] {
            Cell::Int(v) => Some(*v),
            _ => None,
        }
    }

    /// The column read as keys.
    pub fn keys(&self) -> (keys: Vec<Key>)
        ensures
            keys@ == column_keys(self@),
    {
        let mut keys: Vec<Key> = Vec::new();
        let mut i: usize = 0;
        while i < self.cells.len()
            invariant
                i <= self.cells.len(),
                keys.len() == i,
                forall|j: int| 0 <= j < i ==> #[trigger] keys[j] == Self::key_of(self@[j]),
            decreases self.cells.len() - i,
        {
            keys.push(self.key_at(i));
            i += 1;
        }
        assert(keys@ =~= column_keys(self@));
        keys
    }

    /// The cells from `offset` on, `length` of them.
    pub fn slice(&self, offset: usize, length: usize) -> (r: Result<ColumnArray, TableError>)
        requires
            self.wf(),
        ensures
            r is Ok <==> offset + length <= self@.len(),
            r matches Ok(c) ==> c.wf() && c.data_type == self.data_type && c@
                == self@.subrange(offset as int, offset + length),
            r matches Err(e) ==> e is IndexOutOfRange,
    {
        let n = self.cells.len();
        if offset > n || length > n - offset {
            return Err(TableError::IndexOutOfRange);
        }
        let mut cells: Vec<Cell> = Vec::new();
        let mut i: usize = 0;
        while i < length
            invariant
                i <= length,
                offset + length <= self.cells.len(),
                cells.len() == i,
                forall|j: int| 0 <= j < i ==> (#[trigger] cells[j])@ == self.cells[offset + j]@,
            decreases length - i,
        {
            cells.push(self.cells[offset + i].clone());
            i += 1;
        }
        let c = ColumnArray { data_type: self.data_type, cells };
        assert(c@ =~= self@.subrange(offset as int, offset + length));
        Ok(c)
    }

    /// Gather by index: the cell at `idxs[i]` becomes cell `i` of the result.
    pub fn take(&self, idxs: &Vec<u32>) -> (r: Result<ColumnArray, TableError>)
        requires
            self.wf(),
        ensures
            r is Ok <==> all_below(idxs@, self@.len() as int),
            r matches Ok(c) ==> c.wf() && c.data_type == self.data_type && c@ == gather(
                self@,
                idxs@,
            ),
            r matches Err(e) ==> e is IndexOutOfRange,
    {
        let mut cells: Vec<Cell> = Vec::new();
        let mut i: usize = 0;
        while i < idxs.len()
            invariant
                i <= idxs.len(),
                cells.len() == i,
                forall|j: int| 0 <= j < i ==> (#[trigger] idxs[j]) < self.cells.len(),
                forall|j: int| 0 <= j < i ==> (#[trigger] cells[j])@ == self.cells[idxs[j] as int]@,
            decreases idxs.len() - i,
        {
            let p: usize = idxs[i] as usize;
            if p >= self.cells.len() {
                return Err(TableError::IndexOutOfRange);
            }
            cells.push(self.cells[p].clone());
            i += 1;
        }
        let c = ColumnArray { data_type: self.data_type, cells };
        assert(c@ =~= gather(self@, idxs@));
        Ok(c)
    }

    /// Appends a copy of every cell of `other`.
    pub fn extend(&mut self, other: &ColumnArray)
        requires
            old(self).wf(),
            other.wf(),
            other.data_type == old(self).data_type,
        ensures
            final(self).wf(),
            final(self).data_type == old(self).data_type,
            final(self)@ == old(self)@ + other@,
    {
        let mut i: usize = 0;
        while i < other.cells.len()
            invariant
                i <= other.cells.len(),
                self.data_type == old(self).data_type,
                self@ == old(self)@ + other@.subrange(0, i as int),
            decreases other.cells.len() - i,
        {
            let ghost before = self@;
            self.cells.push(other.cells[i].clone());
            assert(self@ =~= before.push(other@[i as int]));
            assert(self@ =~= old(self)@ + other@.subrange(0, i + 1));
            i += 1;
        }
        assert(other@.subrange(0, other@.len() as int) =~= other@);
    }
}

impl Clone for ColumnArray {
    fn clone(&self) -> (c: Self)
        ensures
            c@ == self@,
            c.data_type == self.data_type,
    {
        let mut cells: Vec<Cell> = Vec::new();
        let mut i: usize = 0;
        while i < self.cells.len()
            invariant
                i <= self.cells.len(),
                cells.len() == i,
                forall|j: int| 0 <= j < i ==> (#[trigger] cells[j])@ == self.cells[j]@,
            decreases self.cells.len() - i,
        {
            cells.push(self.cells[i].clone());
            i += 1;
        }
        let c = ColumnArray { data_type: self.data_type, cells };
        assert(c@ =~= self@);
        c
    }
}

} // verus!
