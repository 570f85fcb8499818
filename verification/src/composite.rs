//! Composite keys: several key columns reduced to one column of unsigned
//! 64-bit keys by shifting each column to start at 0 and folding the columns
//! together, scaled by the greatest key so far.

use crate::arrow::{
    arrow_add_u64, arrow_cast_i64_u64, arrow_max_u64, arrow_min_i64, arrow_mul_scalar_u64,
    arrow_sub_scalar_i64, slot_i64, slot_u64,
};
use crate::column::{column_keys, ColumnArray, Key};
use crate::datatypes::{DataType, TableError};
use crate::hash_index::{hashmap_primitive_to_idxs_par, index_of_keys, HashIndex};
use crate::chunks::Chunk;
use crate::keys::{first_missing, key_columns, key_types, lemma_first_missing_bounds, valid_positions};
use crate::merge::{arrays_wf, cols_of};
use crate::par::par_map_range;
use crate::parts::chunk_key_cols;
use crate::table::{fits, Table};
use vstd::prelude::*;

verus! {

/// The least non-null value among the first `hi` of a signed column.
pub open spec fn least(values: Seq<Option<i64>>, hi: int) -> Option<i64>
    decreases hi,
{
    if hi <= 0 {
        None
    } else {
        match (least(values, hi - 1), values[hi - 1]) {
            (None, x) => x,
            (Some(m), None) => Some(m),
            (Some(m), Some(v)) => if v < m {
                Some(v)
            } else {
                Some(m)
            },
        }
    }
}

/// The greatest non-null value among the first `hi` of an unsigned column.
pub open spec fn greatest(values: Seq<Option<u64>>, hi: int) -> Option<u64>
    decreases hi,
{
    if hi <= 0 {
        None
    } else {
        match (greatest(values, hi - 1), values[hi - 1]) {
            (None, x) => x,
            (Some(m), None) => Some(m),
            (Some(m), Some(v)) => if v > m {
                Some(v)
            } else {
                Some(m)
            },
        }
    }
}

/// What `least` finds.
pub proof fn lemma_least(values: Seq<Option<i64>>, hi: int)
    requires
        0 <= hi <= values.len(),
    ensures
        least(values, hi) is None <==> forall|i: int| 0 <= i < hi ==> (#[trigger] values[i]) is None,
        least(values, hi) matches Some(m) ==> (exists|i: int|
            0 <= i < hi && #[trigger] values[i] == Some(m)) && forall|i: int|
            0 <= i < hi ==> ((#[trigger] values[i]) matches Some(v) ==> m <= v),
    decreases hi,
{
    if hi > 0 {
        lemma_least(values, hi - 1);
        match least(values, hi) {
            Some(m) => {
                if values[hi - 1] == Some(m) {
                    assert(0 <= hi - 1 < hi && values[hi - 1] == Some(m));
                } else {
                    let i = choose|i: int| 0 <= i < hi - 1 && #[trigger] values[i] == Some(m);
                    assert(0 <= i < hi && values[i] == Some(m));
                }
            },
            None => {},
        }
    }
}

/// What `greatest` finds.
pub proof fn lemma_greatest(values: Seq<Option<u64>>, hi: int)
    requires
        0 <= hi <= values.len(),
    ensures
        greatest(values, hi) is None <==> forall|i: int|
            0 <= i < hi ==> (#[trigger] values[i]) is None,
        greatest(values, hi) matches Some(m) ==> (exists|i: int|
            0 <= i < hi && #[trigger] values[i] == Some(m)) && forall|i: int|
            0 <= i < hi ==> ((#[trigger] values[i]) matches Some(v) ==> v <= m),
    decreases hi,
{
    if hi > 0 {
        lemma_greatest(values, hi - 1);
        match greatest(values, hi) {
            Some(m) => {
                if values[hi - 1] == Some(m) {
                    assert(0 <= hi - 1 < hi && values[hi - 1] == Some(m));
                } else {
                    let i = choose|i: int| 0 <= i < hi - 1 && #[trigger] values[i] == Some(m);
                    assert(0 <= i < hi && values[i] == Some(m));
                }
            },
            None => {},
        }
    }
}

/// Whether every key fits in 64 signed bits.
pub open spec fn fits_i64(keys: Seq<Key>) -> bool {
    forall|i: int|
        0 <= i < keys.len() ==> ((#[trigger] keys[i]) matches Some(v) ==> i64::MIN <= v <= i64::MAX)
}

/// The keys as signed 64-bit values.
pub open spec fn widened(keys: Seq<Key>) -> Seq<Option<i64>> {
    keys.map_values(
        |k: Key|
            match k {
                Some(v) => Some(v as i64),
                None => None,
            },
    )
}

/// What a column is shifted by: its least value, or 0 where it has none.
pub open spec fn base(values: Seq<Option<i64>>) -> int {
    slot_i64(least(values, values.len() as int))
}

/// Whether every slot of the column, a null slot counting as 0, can be
/// shifted without leaving 64 signed bits.
pub open spec fn shift_fits(values: Seq<Option<i64>>) -> bool {
    forall|i: int| 0 <= i < values.len() ==> slot_i64(#[trigger] values[i]) - base(values) <= i64::MAX
}

/// The column shifted to start at 0.
pub open spec fn shifted(values: Seq<Option<i64>>) -> Seq<Option<u64>> {
    values.map_values(
        |v: Option<i64>|
            match v {
                Some(x) => Some((x - base(values)) as u64),
                None => None,
            },
    )
}

/// What shifting a key column gives: the column shifted to start at 0, or
/// why it cannot be shifted.
pub open spec fn shift_result(data_type: DataType, keys: Seq<Key>) -> Result<
    Seq<Option<u64>>,
    TableError,
> {
    if !data_type.is_key_type() {
        Err(TableError::UnsupportedKeyType(data_type))
    } else if !fits_i64(keys) || !shift_fits(widened(keys)) {
        Err(TableError::Overflow)
    } else {
        Ok(shifted(widened(keys)))
    }
}

/// The keys of a column as signed 64-bit values, where each of them fits.
pub fn widen(array: &ColumnArray) -> (r: Option<Vec<Option<i64>>>)
    ensures
        r is Some <==> fits_i64(column_keys(array@)),
        r matches Some(values) ==> values@ == widened(column_keys(array@)),
{
    let ghost keys = column_keys(array@);
    let n = array.len();
    let mut values: Vec<Option<i64>> = Vec::new();
    let mut i: usize = 0;
    while i < n
        invariant
            i <= n,
            n == array@.len(),
            keys == column_keys(array@),
            values.len() == i,
            forall|j: int|
                0 <= j < i ==> ((#[trigger] keys[j]) matches Some(v) ==> i64::MIN <= v <= i64::MAX),
            forall|j: int| 0 <= j < i ==> #[trigger] values[j] == widened(keys)[j],
        decreases n - i,
    {
        match array.key_at(i) {
            None => {
                values.push(None);
            },
            Some(v) => {
                if v < i64::MIN as i128 || v > i64::MAX as i128 {
                    assert(!fits_i64(keys)) by {
                        assert(keys[i as int] == Some(v));
                    }
                    return None;
                }
                values.push(Some(v as i64));
            },
        }
        i += 1;
    }
    assert(values@ =~= widened(keys));
    Some(values)
}

/// Shifts a key column to start at 0: every value less the least value of the
/// column, as an unsigned 64-bit value; nulls stay null.
///
/// Refused where the column is not of an integer type, where a value does
/// not fit in 64 signed bits, and where a slot, a null slot counting as 0,
/// cannot be shifted within 64 signed bits.
pub fn array_to_u64(array: &ColumnArray) -> (r: Result<Vec<Option<u64>>, TableError>)
    requires
        array.wf(),
    ensures
        match r {
            Ok(out) => shift_result(array.data_type, column_keys(array@)) == Ok::<
                Seq<Option<u64>>,
                TableError,
            >(out@),
            Err(e) => shift_result(array.data_type, column_keys(array@)) == Err::<
                Seq<Option<u64>>,
                TableError,
            >(e),
        },
{
    if !array.data_type().key_type() {
        return Err(TableError::UnsupportedKeyType(array.data_type()));
    }
    let ghost keys = column_keys(array@);
    let n = array.len();
    let values = match widen(array) {
        Some(values) => values,
        None => {
            return Err(TableError::Overflow);
        },
    };
    let least_value = arrow_min_i64(&values);
    proof {
        lemma_least(values@, n as int);
        match least_value {
            Some(x) => {
                let m = least(values@, n as int).unwrap();
                let i = choose|i: int| 0 <= i < n && #[trigger] values@[i] == Some(m);
                assert(x <= m);
                let j = choose|j: int| 0 <= j < n && values@[j] == Some(x);
                assert(values@[j] == Some(x));
                assert(m <= x);
            },
            None => {},
        }
        assert(least_value == least(values@, n as int));
    }
    let shift: i64 = match least_value {
        Some(x) => x,
        None => 0,
    };
    let mut i: usize = 0;
    while i < n
        invariant
            i <= n,
            n == values.len(),
            array.data_type.is_key_type(),
            keys == column_keys(array@),
            fits_i64(keys),
            values@ == widened(keys),
            shift == base(values@),
            forall|j: int| 0 <= j < i ==> slot_i64(#[trigger] values[j]) - shift <= i64::MAX,
        decreases n - i,
    {
        let slot: i64 = match values[i] {
            Some(v) => v,
            None => 0,
        };
        if slot as i128 - shift as i128 > i64::MAX as i128 {
            assert(!shift_fits(values@)) by {
                assert(slot_i64(values@[i as int]) - base(values@) > i64::MAX);
            }
            return Err(TableError::Overflow);
        }
        i += 1;
    }
    proof {
        assert forall|j: int| 0 <= j < n implies i64::MIN <= slot_i64(#[trigger] values[j]) - shift by {
            match values[j] {
                Some(v) => {
                    assert(shift <= v);
                },
                None => {},
            }
        }
    }
    let moved = arrow_sub_scalar_i64(&values, shift);
    let out = arrow_cast_i64_u64(&moved);
    proof {
        assert forall|j: int| 0 <= j < n implies #[trigger] out[j] == shifted(values@)[j] by {
            match values[j] {
                Some(v) => {
                    assert(shift <= v);
                    assert(moved[j] == Some((v - shift) as i64));
                },
                None => {
                    assert(moved[j] == None::<i64>);
                },
            }
        }
        assert(out@ =~= shifted(values@));
    }
    Ok(out)
}

/// The greatest key of a column, or 0 where it has none.
pub open spec fn peak(values: Seq<Option<u64>>) -> int {
    slot_u64(greatest(values, values.len() as int))
}

/// One step of the fold: each key so far scaled by `m`, plus the key of the
/// next column; null where either is.
pub open spec fn step(c: Seq<Option<u64>>, m: int, a: Seq<Option<u64>>) -> Seq<Option<u64>> {
    Seq::new(
        c.len(),
        |i: int|
            match (c[i], a[i]) {
                (Some(x), Some(y)) => Some((x * m + y) as u64),
                _ => None,
            },
    )
}

/// Whether a step cannot leave 64 unsigned bits: the greatest key so far,
/// scaled by itself, plus the greatest key of the next column fits.
pub open spec fn step_fits(c: Seq<Option<u64>>, a: Seq<Option<u64>>) -> bool {
    peak(c) * peak(c) + peak(a) <= u64::MAX
}

/// The first `k` shifted columns folded into one: the first column as it is,
/// then each further column added to the keys so far scaled by their
/// greatest.
pub open spec fn composite(cols: Seq<Seq<Option<u64>>>, k: int) -> Seq<Option<u64>>
    decreases k,
{
    if k <= 1 {
        cols[0]
    } else {
        step(composite(cols, k - 1), peak(composite(cols, k - 1)), cols[k - 1])
    }
}

/// Whether every step of the fold over the first `k` columns fits.
pub open spec fn composite_fits(cols: Seq<Seq<Option<u64>>>, k: int) -> bool
    decreases k,
{
    if k <= 1 {
        true
    } else {
        composite_fits(cols, k - 1) && step_fits(composite(cols, k - 1), cols[k - 1])
    }
}

/// The types of a list of columns.
pub open spec fn types_of(arrays: Seq<ColumnArray>) -> Seq<DataType> {
    arrays.map_values(|a: ColumnArray| a.data_type)
}

/// The first column from `from` on that cannot be shifted, or the number of
/// columns where all can.
pub open spec fn first_unshiftable(types: Seq<DataType>, cols: Seq<Seq<Key>>, from: int) -> int
    decreases cols.len() - from,
{
    if from >= cols.len() {
        cols.len() as int
    } else if shift_result(types[from], cols[from]) is Err {
        from
    } else {
        first_unshiftable(types, cols, from + 1)
    }
}

/// The columns, each shifted to start at 0.
pub open spec fn shifted_cols(types: Seq<DataType>, cols: Seq<Seq<Key>>) -> Seq<Seq<Option<u64>>> {
    Seq::new(cols.len(), |j: int| shift_result(types[j], cols[j]).unwrap())
}

/// What the reduction of a list of key columns gives: the composite keys, or
/// why they cannot be formed.
pub open spec fn hash_result(types: Seq<DataType>, cols: Seq<Seq<Key>>) -> Result<
    Seq<Option<u64>>,
    TableError,
> {
    let bad = first_unshiftable(types, cols, 0);
    if cols.len() == 0 {
        Err(TableError::KeyTypeMismatch)
    } else if bad < cols.len() {
        Err(shift_result(types[bad], cols[bad])->Err_0)
    } else if !composite_fits(shifted_cols(types, cols), cols.len() as int) {
        Err(TableError::Overflow)
    } else {
        Ok(composite(shifted_cols(types, cols), cols.len() as int))
    }
}

/// The greatest key of a column.
pub fn column_peak(values: &Vec<Option<u64>>) -> (m: u64)
    ensures
        m == peak(values@),
        forall|i: int| 0 <= i < values.len() ==> slot_u64(#[trigger] values[i]) <= m,
{
    let found = arrow_max_u64(values);
    proof {
        let n = values.len() as int;
        lemma_greatest(values@, n);
        match found {
            Some(x) => {
                let m = greatest(values@, n).unwrap();
                let i = choose|i: int| 0 <= i < n && #[trigger] values@[i] == Some(m);
                assert(m <= x);
                let j = choose|j: int| 0 <= j < n && values@[j] == Some(x);
                assert(values@[j] == Some(x));
                assert(x <= m);
            },
            None => {},
        }
        assert(found == greatest(values@, n));
    }
    match found {
        Some(x) => x,
        None => 0,
    }
}

/// Reduces a list of key columns to one column of composite keys: each
/// column is shifted to start at 0, and the columns are folded together, the
/// keys so far scaled by their greatest before the next column is added. A
/// row with a null in any column has a null composite key.
///
/// Refused where there is no column, where a column cannot be shifted, and
/// where a step of the fold could leave 64 unsigned bits.
pub fn arrays_to_hash(arrays: &Vec<ColumnArray>) -> (r: Result<Vec<Option<u64>>, TableError>)
    requires
        arrays_wf(arrays@),
    ensures
        match r {
            Ok(out) => hash_result(types_of(arrays@), cols_of(arrays@)) == Ok::<
                Seq<Option<u64>>,
                TableError,
            >(out@),
            Err(e) => hash_result(types_of(arrays@), cols_of(arrays@)) == Err::<
                Seq<Option<u64>>,
                TableError,
            >(e),
        },
{
    if arrays.len() == 0 {
        return Err(TableError::KeyTypeMismatch);
    }
    let mut cols: Vec<Vec<Option<u64>>> = Vec::new();
    let mut c: usize = 0;
    while c < arrays.len()
        invariant
            c <= arrays.len(),
            arrays_wf(arrays@),
            first_unshiftable(types_of(arrays@), cols_of(arrays@), 0) == first_unshiftable(
                types_of(arrays@),
                cols_of(arrays@),
                c as int,
            ),
            cols.len() == c,
            forall|j: int|
                0 <= j < c ==> shift_result(
                    (#[trigger] arrays[j]).data_type,
                    column_keys(arrays[j]@),
                ) == Ok::<Seq<Option<u64>>, TableError>(cols[j]@),
        decreases arrays.len() - c,
    {
        match array_to_u64(&arrays[c]) {
            Ok(col) => {
                cols.push(col);
            },
            Err(e) => {
                return Err(e);
            },
        }
        c += 1;
    }
    let ghost sc = shifted_cols(types_of(arrays@), cols_of(arrays@));
    proof {
        assert forall|j: int| 0 <= j < arrays.len() implies #[trigger] sc[j] == cols[j]@ by {
            assert(shift_result(arrays[j].data_type, column_keys(arrays[j]@)) == Ok::<
                Seq<Option<u64>>,
                TableError,
            >(cols[j]@));
        }
        assert forall|j: int| 0 <= j < arrays.len() implies (#[trigger] cols[j]).len()
            == arrays[0]@.len() by {
            assert(shift_result(arrays[j].data_type, column_keys(arrays[j]@)) == Ok::<
                Seq<Option<u64>>,
                TableError,
            >(cols[j]@));
            assert(arrays[j]@.len() == arrays[0]@.len());
        }
    }
    let mut keys = copy_u64s(&cols[0]);
    let mut k: usize = 1;
    while k < cols.len()
        invariant
            1 <= k <= cols.len(),
            cols.len() == arrays.len(),
            sc == shifted_cols(types_of(arrays@), cols_of(arrays@)),
            first_unshiftable(types_of(arrays@), cols_of(arrays@), 0) == arrays.len(),
            forall|j: int| 0 <= j < cols.len() ==> #[trigger] sc[j] == cols[j]@,
            forall|j: int| 0 <= j < cols.len() ==> (#[trigger] cols[j]).len() == arrays[0]@.len(),
            keys@ == composite(sc, k as int),
            keys.len() == arrays[0]@.len(),
            composite_fits(sc, k as int),
        decreases cols.len() - k,
    {
        let m = column_peak(&keys);
        let next = &cols[k];
        let top = column_peak(next);
        assert(m * m <= 0xffff_ffff_ffff_ffff * 0xffff_ffff_ffff_ffff) by (nonlinear_arith)
            requires
                0 <= m <= 0xffff_ffff_ffff_ffff,
        ;
        let bound: u128 = (m as u128) * (m as u128) + (top as u128);
        if bound > u64::MAX as u128 {
            assert(!composite_fits(sc, cols.len() as int)) by {
                assert(!step_fits(composite(sc, k as int), sc[k as int]));
                if composite_fits(sc, cols.len() as int) {
                    lemma_fits_prefix(sc, k + 1, cols.len() as int);
                }
            }
            return Err(TableError::Overflow);
        }
        proof {
            assert forall|i: int| 0 <= i < keys.len() implies slot_u64(#[trigger] keys[i]) * m
                <= u64::MAX by {
                let x = slot_u64(keys[i]);
                assert(x * m <= m * m) by (nonlinear_arith)
                    requires
                        0 <= x <= m,
                ;
            }
        }
        let scaled = arrow_mul_scalar_u64(&keys, m);
        proof {
            assert forall|i: int| 0 <= i < scaled.len() implies slot_u64(#[trigger] scaled[i])
                + slot_u64(next[i]) <= u64::MAX by {
                let x = slot_u64(keys[i]);
                assert(x * m <= m * m) by (nonlinear_arith)
                    requires
                        0 <= x <= m,
                ;
                assert(slot_u64(next[i]) <= top);
                match keys[i] {
                    Some(v) => {
                        assert(scaled[i] == Some((v * m) as u64));
                    },
                    None => {
                        assert(scaled[i] == None::<u64>);
                    },
                }
            }
        }
        let sum = arrow_add_u64(&scaled, next);
        proof {
            let expected = step(keys@, m as int, next@);
            assert forall|i: int| 0 <= i < sum.len() implies #[trigger] sum[i] == expected[i] by {
                let x = slot_u64(keys[i]);
                assert(x * m <= m * m) by (nonlinear_arith)
                    requires
                        0 <= x <= m,
                ;
                match keys[i] {
                    Some(v) => {
                        assert(scaled[i] == Some((v * m) as u64));
                    },
                    None => {
                        assert(scaled[i] == None::<u64>);
                    },
                }
            }
            assert(sum@ =~= expected);
        }
        keys = sum;
        k += 1;
    }
    Ok(keys)
}

/// A fold that fits over `hi` columns fits over fewer.
pub proof fn lemma_fits_prefix(cols: Seq<Seq<Option<u64>>>, k: int, hi: int)
    requires
        1 <= k <= hi,
        composite_fits(cols, hi),
    ensures
        composite_fits(cols, k),
    decreases hi - k,
{
    if k < hi {
        lemma_fits_prefix(cols, k + 1, hi);
    }
}

/// A copy of a column of unsigned keys.
pub fn copy_u64s(values: &Vec<Option<u64>>) -> (copy: Vec<Option<u64>>)
    ensures
        copy@ == values@,
{
    let mut copy: Vec<Option<u64>> = Vec::new();
    let mut i: usize = 0;
    while i < values.len()
        invariant
            i <= values.len(),
            copy@ == values@.subrange(0, i as int),
        decreases values.len() - i,
    {
        copy.push(values[i]);
        assert(copy@ =~= values@.subrange(0, i + 1));
        i += 1;
    }
    assert(values@.subrange(0, values.len() as int) =~= values@);
    copy
}

/// Unsigned keys as keys of a hash index.
pub open spec fn as_keys(values: Seq<Option<u64>>) -> Seq<Key> {
    values.map_values(
        |v: Option<u64>|
            match v {
                Some(x) => Some(x as i128),
                None => None,
            },
    )
}

/// What indexing the composite keys of a list of key columns gives: the hash
/// index of the composite keys, or why it cannot be built.
pub open spec fn index_result(types: Seq<DataType>, cols: Seq<Seq<Key>>) -> Result<
    Map<Key, Seq<u32>>,
    TableError,
> {
    match hash_result(types, cols) {
        Err(e) => Err(e),
        Ok(keys) => if keys.len() > u32::MAX {
            Err(TableError::Overflow)
        } else {
            Ok(index_of_keys(as_keys(keys)))
        },
    }
}

/// Groups the rows of a list of key columns by their composite key: the hash
/// index of the composite keys.
///
/// Refused where the composite keys cannot be formed and where there are
/// more rows than 32 bits can number.
pub fn groupby_many_test(arrays: &Vec<ColumnArray>) -> (r: Result<HashIndex, TableError>)
    requires
        arrays_wf(arrays@),
    ensures
        match r {
            Ok(idx) => idx.wf() && index_result(types_of(arrays@), cols_of(arrays@)) == Ok::<
                Map<Key, Seq<u32>>,
                TableError,
            >(idx@),
            Err(e) => index_result(types_of(arrays@), cols_of(arrays@)) == Err::<
                Map<Key, Seq<u32>>,
                TableError,
            >(e),
        },
{
    match arrays_to_hash(arrays) {
        Err(e) => Err(e),
        Ok(values) => {
            if values.len() > u32::MAX as usize {
                return Err(TableError::Overflow);
            }
            let mut keys: Vec<Key> = Vec::new();
            let mut i: usize = 0;
            while i < values.len()
                invariant
                    i <= values.len(),
                    keys.len() == i,
                    forall|j: int| 0 <= j < i ==> #[trigger] keys[j] == as_keys(values@)[j],
                decreases values.len() - i,
            {
                let key: Key = match values[i] {
                    Some(x) => Some(x as i128),
                    None => None,
                };
                keys.push(key);
                i += 1;
            }
            assert(keys@ =~= as_keys(values@));
            Ok(hashmap_primitive_to_idxs_par(&keys))
        },
    }
}

/// The first chunk from `from` on whose composite keys cannot be indexed, or
/// the number of chunks where all can.
pub open spec fn first_unindexed(
    types: Seq<DataType>,
    chunks: Seq<Chunk>,
    cs: Seq<usize>,
    from: int,
) -> int
    decreases chunks.len() - from,
{
    if from >= chunks.len() {
        chunks.len() as int
    } else if index_result(types, chunk_key_cols(&chunks[from], cs)) is Err {
        from
    } else {
        first_unindexed(types, chunks, cs, from + 1)
    }
}

impl Table {
    /// The key columns `cs` of chunk `i`, copied.
    pub fn chunk_key_arrays(&self, i: usize, cs: &Vec<usize>) -> (arrays: Vec<ColumnArray>)
        requires
            self.wf(),
            i < self.chunks.len(),
            valid_positions(cs@, self.fields.len() as int),
        ensures
            arrays_wf(arrays@),
            types_of(arrays@) == key_types(self.fields@, cs@),
            cols_of(arrays@) == chunk_key_cols(&self.chunks[i as int], cs@),
    {
        let chunk = &self.chunks[i];
        assert(fits(self.fields@, chunk));
        let mut arrays: Vec<ColumnArray> = Vec::new();
        let mut j: usize = 0;
        while j < cs.len()
            invariant
                j <= cs.len(),
                chunk.wf(),
                chunk.columns.len() == self.fields.len(),
                valid_positions(cs@, self.fields.len() as int),
                arrays.len() == j,
                forall|k: int|
                    0 <= k < j ==> (#[trigger] arrays[k]).wf() && arrays[k]@
                        == chunk.columns[cs[k] as int]@ && arrays[k].data_type
                        == chunk.columns[cs[k] as int].data_type,
            decreases cs.len() - j,
        {
            let column = chunk.columns[cs[j]].clone();
            proof {
                let source = chunk.columns[cs[j as int] as int];
                assert(source.wf());
                assert forall|p: int| 0 <= p < column.cells.len() implies column.data_type.admits(
                    #[trigger] column@[p],
                ) by {
                    assert(source@[p] == column@[p]);
                }
            }
            arrays.push(column);
            j += 1;
        }
        proof {
            assert(types_of(arrays@) =~= key_types(self.fields@, cs@)) by {
                assert forall|k: int| 0 <= k < cs.len() implies types_of(arrays@)[k] == key_types(
                    self.fields@,
                    cs@,
                )[k] by {
                    assert(chunk.columns[cs[k] as int].data_type
                        == self.fields[cs[k] as int].data_type);
                }
            }
            assert(cols_of(arrays@) =~= chunk_key_cols(chunk, cs@));
        }
        arrays
    }

    /// Groups the rows of every chunk by the composite key of the columns
    /// that `columns` names: one hash index of composite keys per chunk, the
    /// chunks indexed side by side.
    ///
    /// Refused where a name is not a field, and where the composite keys of
    /// a chunk cannot be indexed.
    pub fn groupby_test(&self, columns: &Vec<String>) -> (r: Result<Vec<HashIndex>, TableError>)
        requires
            self.wf(),
        ensures
            r is Ok <==> first_missing(self.fields@, columns@, 0) == columns.len()
                && first_unindexed(
                key_types(self.fields@, key_columns(self.fields@, columns@)),
                self.chunks@,
                key_columns(self.fields@, columns@),
                0,
            ) == self.chunks.len(),
            r matches Ok(maps) ==> maps.len() == self.chunks.len() && forall|i: int|
                0 <= i < maps.len() ==> (#[trigger] maps[i]).wf() && index_result(
                    key_types(self.fields@, key_columns(self.fields@, columns@)),
                    chunk_key_cols(&self.chunks[i], key_columns(self.fields@, columns@)),
                ) == Ok::<Map<Key, Seq<u32>>, TableError>(maps[i]@),
            r matches Err(e) ==> if first_missing(self.fields@, columns@, 0) < columns.len() {
                e == TableError::ColumnNotFound(columns[first_missing(self.fields@, columns@, 0)])
            } else {
                index_result(
                    key_types(self.fields@, key_columns(self.fields@, columns@)),
                    chunk_key_cols(
                        &self.chunks[first_unindexed(
                            key_types(self.fields@, key_columns(self.fields@, columns@)),
                            self.chunks@,
                            key_columns(self.fields@, columns@),
                            0,
                        )],
                        key_columns(self.fields@, columns@),
                    ),
                ) == Err::<Map<Key, Seq<u32>>, TableError>(e)
            },
    {
        let cs = match self.key_positions(columns) {
            Err(e) => {
                proof {
                    lemma_first_missing_bounds(self.fields@, columns@, 0);
                }
                return Err(e);
            },
            Ok(cs) => cs,
        };
        let ghost types = key_types(self.fields@, cs@);
        let index_chunk = (|i: usize| -> (r: Result<HashIndex, TableError>)
            requires
                self.chunks.len() > i,
            ensures
                match r {
                    Ok(idx) => idx.wf() && index_result(
                        key_types(self.fields@, cs@),
                        chunk_key_cols(&self.chunks[i as int], cs@),
                    ) == Ok::<Map<Key, Seq<u32>>, TableError>(idx@),
                    Err(e) => index_result(
                        key_types(self.fields@, cs@),
                        chunk_key_cols(&self.chunks[i as int], cs@),
                    ) == Err::<Map<Key, Seq<u32>>, TableError>(e),
                },
            {
                let arrays = self.chunk_key_arrays(i, &cs);
                groupby_many_test(&arrays)
            });
        let mut results = par_map_range(self.chunks.len(), index_chunk);
        let ghost results0 = results@;
        let mut maps: Vec<HashIndex> = Vec::new();
        let mut i: usize = 0;
        while i < results.len()
            invariant
                i <= results.len(),
                results.len() == self.chunks.len(),
                results.len() == results0.len(),
                types == key_types(self.fields@, cs@),
                cs@ == key_columns(self.fields@, columns@),
                first_missing(self.fields@, columns@, 0) == columns.len(),
                forall|k: int| i <= k < results.len() ==> #[trigger] results[k] == results0[k],
                forall|k: int|
                    0 <= k < results0.len() ==> match #[trigger] results0[k] {
                        Ok(idx) => idx.wf() && index_result(
                            types,
                            chunk_key_cols(&self.chunks[k], cs@),
                        ) == Ok::<Map<Key, Seq<u32>>, TableError>(idx@),
                        Err(e) => index_result(types, chunk_key_cols(&self.chunks[k], cs@))
                            == Err::<Map<Key, Seq<u32>>, TableError>(e),
                    },
                first_unindexed(types, self.chunks@, cs@, 0) == first_unindexed(
                    types,
                    self.chunks@,
                    cs@,
                    i as int,
                ),
                maps.len() == i,
                forall|k: int|
                    0 <= k < i ==> (#[trigger] maps[k]).wf() && index_result(
                        types,
                        chunk_key_cols(&self.chunks[k], cs@),
                    ) == Ok::<Map<Key, Seq<u32>>, TableError>(maps[k]@),
            decreases results.len() - i,
        {
            let mut taken: Result<HashIndex, TableError> = Err(TableError::Overflow);
            std::mem::swap(&mut results[i], &mut taken);
            assert(taken == results0[i as int]);
            match taken {
                Ok(idx) => {
                    maps.push(idx);
                },
                Err(e) => {
                    return Err(e);
                },
            }
            i += 1;
        }
        Ok(maps)
    }
}

/// A step of the fold keeps keys apart where the scale lies above every key
/// of the next column: two pairs of a key so far and a next key give the
/// same composite key only where they are the same pair.
pub proof fn step_keeps_apart(x1: int, y1: int, x2: int, y2: int, m: int)
    requires
        0 <= y1 < m,
        0 <= y2 < m,
        x1 * m + y1 == x2 * m + y2,
    ensures
        x1 == x2,
        y1 == y2,
{
    assert(x1 == x2) by (nonlinear_arith)
        requires
            0 <= y1 < m,
            0 <= y2 < m,
            x1 * m + y1 == x2 * m + y2,
    ;
    assert(y1 == y2) by (nonlinear_arith)
        requires
            x1 == x2,
            x1 * m + y1 == x2 * m + y2,
    ;
}

} // verus!
