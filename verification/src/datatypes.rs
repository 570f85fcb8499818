//! Element types, cells, fields and the error taxonomy shared by every module.

use vstd::prelude::*;

verus! {

/// The closed set of element types a column can have.
///
/// Cells of the two floating-point types are carried as their IEEE-754 bit
/// patterns, so they can be gathered, sliced and concatenated like any other
/// cell, but never serve as keys.
#[derive(Clone, Copy, Debug, PartialEq, Eq, Structural)]
pub enum DataType {
    Int8,
    Int16,
    Int32,
    Int64,
    UInt8,
    UInt16,
    UInt32,
    UInt64,
    Float32,
    Float64,
    Utf8,
}

/// One cell of a column.
#[derive(Debug, PartialEq, Eq)]
pub enum Cell {
    Null,
    Int(i128),
    Text(String),
}

/// The mathematical value of a [`Cell`].
pub enum CellView {
    Null,
    Int(int),
    Text(Seq<char>),
}

impl View for Cell {
    type V = CellView;

    open spec fn view(&self) -> CellView {
        match self {
            Cell::Null => CellView::Null,
            Cell::Int(v) => CellView::Int(*v as int),
            Cell::Text(s) => CellView::Text(s@),
        }
    }
}

impl Clone for Cell {
    fn clone(&self) -> (c: Self)
        ensures
            c@ == self@,
    {
        match self {
            Cell::Null => Cell::Null,
            Cell::Int(v) => Cell::Int(*v),
            Cell::Text(s) => Cell::Text(s.clone()),
        }
    }
}

impl DataType {
    /// Whether columns of this type can be hashed as keys: the eight integer
    /// types.
    pub open spec fn is_key_type(self) -> bool {
        !(self is Float32 || self is Float64 || self is Utf8)
    }

    /// Smallest integer a cell of this type can hold.
    pub open spec fn lower(self) -> int {
        match self {
            DataType::Int8 => -0x80,
            DataType::Int16 => -0x8000,
            DataType::Int32 => -0x8000_0000,
            DataType::Int64 => -0x8000_0000_0000_0000,
            _ => 0,
        }
    }

    /// Largest integer a cell of this type can hold.
    pub open spec fn upper(self) -> int {
        match self {
            DataType::Int8 => 0x7f,
            DataType::Int16 => 0x7fff,
            DataType::Int32 => 0x7fff_ffff,
            DataType::Int64 => 0x7fff_ffff_ffff_ffff,
            DataType::UInt8 => 0xff,
            DataType::UInt16 => 0xffff,
            DataType::UInt32 | DataType::Float32 => 0xffff_ffff,
            DataType::UInt64 | DataType::Float64 => 0xffff_ffff_ffff_ffff,
            DataType::Utf8 => 0,
        }
    }

    /// Whether a cell value may stand in a column of this type.
    pub open spec fn admits(self, c: CellView) -> bool {
        match c {
            CellView::Null => true,
            CellView::Int(v) => !(self is Utf8) && self.lower() <= v <= self.upper(),
            CellView::Text(_) => self is Utf8,
        }
    }

    /// Runtime form of [`DataType::is_key_type`].
    pub fn key_type(&self) -> (b: bool)
        ensures
            b == self.is_key_type(),
    {
        match self {
            DataType::Float32 | DataType::Float64 | DataType::Utf8 => false,
            _ => true,
        }
    }

    /// Runtime form of [`DataType::admits`].
    pub fn accepts(&self, c: &Cell) -> (b: bool)
        ensures
            b == self.admits(c@),
    {
        match c {
            Cell::Null => true,
            Cell::Text(_) => matches!(self, DataType::Utf8),
            Cell::Int(v) => {
                let v: i128 = *v;
                match self {
                    DataType::Int8 => -0x80 <= v && v <= 0x7f,
                    DataType::Int16 => -0x8000 <= v && v <= 0x7fff,
                    DataType::Int32 => -0x8000_0000 <= v && v <= 0x7fff_ffff,
                    DataType::Int64 => -0x8000_0000_0000_0000 <= v && v <= 0x7fff_ffff_ffff_ffff,
                    DataType::UInt8 => 0 <= v && v <= 0xff,
                    DataType::UInt16 => 0 <= v && v <= 0xffff,
                    DataType::UInt32 | DataType::Float32 => 0 <= v && v <= 0xffff_ffff,
                    DataType::UInt64 | DataType::Float64 => 0 <= v && v <= 0xffff_ffff_ffff_ffff,
                    DataType::Utf8 => false,
                }
            },
        }
    }
}

/// A named, typed column slot of a table.
#[derive(Debug, PartialEq, Eq)]
pub struct Field {
    pub name: String,
    pub data_type: DataType,
    pub nullable: bool,
}

impl Field {
    /// A field of the given name and type.
    pub fn new(name: String, data_type: DataType, nullable: bool) -> (f: Field)
        ensures
            f.name@ == name@,
            f.data_type == data_type,
            f.nullable == nullable,
    {
        Field { name, data_type, nullable }
    }

    /// Structural equality: same name, same type, same nullability.
    pub open spec fn same(&self, other: &Field) -> bool {
        &&& self.name@ == other.name@
        &&& self.data_type == other.data_type
        &&& self.nullable == other.nullable
    }

    /// Runtime form of [`Field::same`].
    pub fn same_as(&self, other: &Field) -> (b: bool)
        ensures
            b == self.same(other),
    {
        self.name == other.name && self.data_type == other.data_type && self.nullable
            == other.nullable
    }
}

impl Clone for Field {
    fn clone(&self) -> (f: Self)
        ensures
            f.same(self),
    {
        Field { name: self.name.clone(), data_type: self.data_type, nullable: self.nullable }
    }
}

/// Why an operation was refused.
#[derive(Debug, PartialEq, Eq)]
pub enum TableError {
    /// The field lists of two tables disagree, or a chunk does not fit the
    /// fields it is put under.
    SchemaMismatch,
    /// A key column has a type outside the integer types.
    UnsupportedKeyType(DataType),
    /// The key columns of two sides do not agree in number or in type, or
    /// there is none.
    KeyTypeMismatch,
    /// A named column is not among the table's fields.
    ColumnNotFound(String),
    /// A row index or a slice bound lies beyond the column.
    IndexOutOfRange,
    /// A count of rows or a composite key would not fit the integers that
    /// hold it.
    Overflow,
    /// A dataset lacks what is needed to lay it out in storage.
    Manifest,
}

} // verus!
