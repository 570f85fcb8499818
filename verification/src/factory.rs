//! Tables of made-up rows, for trying the library out.

use crate::chunks::Chunk;
use crate::column::ColumnArray;
use crate::labels::{decimal_nat, nat_to_string};
use crate::datatypes::{Cell, CellView, DataType, Field};
use crate::table::{count_rows, fits, lemma_rows_push, Table};
use vstd::prelude::*;
use vstd::string::StringExecFns;

verus! {

/// The number of rows of every chunk that the factory makes.
pub const CHUNK_ROWS: usize = 100_000;

/// The most chunks the factory makes: beyond that the row numbers would leave
/// 32 signed bits.
pub const MAX_CHUNKS: usize = 21_474;

/// Row `x` of a made-up table: `x` modulo 10, `x`, `x` in decimal, and `x`.
pub open spec fn made_row(x: int) -> Seq<CellView> {
    seq![
        CellView::Int(x % 10),
        CellView::Int(x),
        CellView::Text(decimal_nat(x as nat)),
        CellView::Int(x),
    ]
}

/// A chunk of `size` made-up rows, numbered from `offset` on.
pub fn create_chunk(size: usize, offset: usize) -> (chunk: Chunk)
    requires
        offset + size <= 0x7fff_ffff,
    ensures
        chunk.wf(),
        chunk.columns.len() == 4,
        chunk.columns[0].data_type == DataType::Int32,
        chunk.columns[1].data_type == DataType::Int32,
        chunk.columns[2].data_type == DataType::Utf8,
        chunk.columns[3].data_type == DataType::Int64,
        chunk.spec_len() == size,
        forall|r: int| 0 <= r < size ==> #[trigger] chunk.row(r) == made_row(offset + r),
{
    let mut c1: Vec<Cell> = Vec::new();
    let mut c2: Vec<Cell> = Vec::new();
    let mut c3: Vec<Cell> = Vec::new();
    let mut c4: Vec<Cell> = Vec::new();
    let mut r: usize = 0;
    while r < size
        invariant
            r <= size,
            offset + size <= 0x7fff_ffff,
            c1.len() == r,
            c2.len() == r,
            c3.len() == r,
            c4.len() == r,
            forall|i: int| 0 <= i < r ==> (#[trigger] c1[i])@ == CellView::Int((offset + i) % 10),
            forall|i: int| 0 <= i < r ==> (#[trigger] c2[i])@ == CellView::Int(offset + i),
            forall|i: int|
                0 <= i < r ==> (#[trigger] c3[i])@ == CellView::Text(
                    decimal_nat((offset + i) as nat),
                ),
            forall|i: int| 0 <= i < r ==> (#[trigger] c4[i])@ == CellView::Int(offset + i),
        decreases size - r,
    {
        let x: usize = offset + r;
        c1.push(Cell::Int((x % 10) as i128));
        c2.push(Cell::Int(x as i128));
        c3.push(Cell::Text(nat_to_string(x as u128)));
        c4.push(Cell::Int(x as i128));
        r += 1;
    }
    let a1 = ColumnArray { data_type: DataType::Int32, cells: c1 };
    let a2 = ColumnArray { data_type: DataType::Int32, cells: c2 };
    let a3 = ColumnArray { data_type: DataType::Utf8, cells: c3 };
    let a4 = ColumnArray { data_type: DataType::Int64, cells: c4 };
    let mut columns: Vec<ColumnArray> = Vec::new();
    columns.push(a1);
    columns.push(a2);
    columns.push(a3);
    columns.push(a4);
    let chunk = Chunk { columns };
    proof {
        assert forall|r: int| 0 <= r < size implies #[trigger] chunk.row(r) == made_row(
            offset + r,
        ) by {
            assert(chunk.row(r) =~= made_row(offset + r));
        }
    }
    chunk
}

/// The fields of a made-up table.
pub fn made_fields() -> (fields: Vec<Field>)
    ensures
        fields.len() == 4,
        fields[0].name@ == "c1"@,
        fields[1].name@ == "c2"@,
        fields[2].name@ == "c3"@,
        fields[3].name@ == "c4"@,
        fields[0].data_type == DataType::Int32,
        fields[1].data_type == DataType::Int32,
        fields[2].data_type == DataType::Utf8,
        fields[3].data_type == DataType::Int64,
        forall|i: int| 0 <= i < 4 ==> (#[trigger] fields[i]).nullable,
        crate::table::distinct_names(fields@),
{
    let mut fields: Vec<Field> = Vec::new();
    fields.push(Field::new(String::from_str("c1"), DataType::Int32, true));
    fields.push(Field::new(String::from_str("c2"), DataType::Int32, true));
    fields.push(Field::new(String::from_str("c3"), DataType::Utf8, true));
    fields.push(Field::new(String::from_str("c4"), DataType::Int64, true));
    proof {
        reveal_strlit("c1");
        reveal_strlit("c2");
        reveal_strlit("c3");
        reveal_strlit("c4");
        assert("c1"@[1] != "c2"@[1]);
        assert("c1"@[1] != "c3"@[1]);
        assert("c1"@[1] != "c4"@[1]);
        assert("c2"@[1] != "c3"@[1]);
        assert("c2"@[1] != "c4"@[1]);
        assert("c3"@[1] != "c4"@[1]);
    }
    fields
}

/// A made-up table of `size` chunks of [`CHUNK_ROWS`] rows each, the rows
/// numbered through from 0.
pub fn create_random_table(size: usize) -> (table: Table)
    requires
        size <= MAX_CHUNKS,
    ensures
        table.wf(),
        table.fields.len() == 4,
        table.chunks.len() == size,
        table.spec_num_rows() == size * CHUNK_ROWS,
        forall|i: int, r: int|
            0 <= i < size && 0 <= r < CHUNK_ROWS ==> #[trigger] table.chunks[i].row(r) == made_row(
                i * CHUNK_ROWS + r,
            ),
{
    let fields = made_fields();
    let mut chunks: Vec<Chunk> = Vec::new();
    let mut i: usize = 0;
    while i < size
        invariant
            i <= size <= MAX_CHUNKS,
            fields.len() == 4,
            fields[0].data_type == DataType::Int32,
            fields[1].data_type == DataType::Int32,
            fields[2].data_type == DataType::Utf8,
            fields[3].data_type == DataType::Int64,
            chunks.len() == i,
            count_rows(chunks@) == i * CHUNK_ROWS,
            forall|k: int| 0 <= k < i ==> fits(fields@, #[trigger] &chunks[k]),
            forall|k: int, r: int|
                0 <= k < i && 0 <= r < CHUNK_ROWS ==> #[trigger] chunks[k].row(r) == made_row(
                    k * CHUNK_ROWS + r,
                ),
        decreases size - i,
    {
        let chunk = create_chunk(CHUNK_ROWS, i * CHUNK_ROWS);
        proof {
            lemma_rows_push(chunks@, chunk);
        }
        chunks.push(chunk);
        i += 1;
    }
    Table { fields, chunks }
}

} // verus!
