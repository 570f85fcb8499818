//! Upsert and delete by key: which rows of the left side survive a right
//! side that claims their keys.

use crate::column::{column_keys, ColumnArray, Key};
use crate::datatypes::TableError;
use crate::groupby::{
    cols_view, hash_group_merge_recur, key_cols_wf, key_in_range, keys_in_range,
    lemma_same_tuple, names_first, row_tuple, same_upto,
};
use crate::hash_index::occurs_in;
use crate::last_index::{hashmap_primitive_to_idx_par, last_index_of_keys, LastIndex};
use crate::workers::{lemma_worker_adjoining, worker_bounds, worker_hi, worker_lo, WORKERS};
use crate::par::par_map_range;
use vstd::prelude::*;

verus! {

/// The key columns of a list of columns.
pub open spec fn cols_of(arrays: Seq<ColumnArray>) -> Seq<Seq<Key>> {
    arrays.map_values(|a: ColumnArray| column_keys(a@))
}

/// Whether the columns are well formed and of one length.
pub open spec fn arrays_wf(arrays: Seq<ColumnArray>) -> bool {
    forall|c: int|
        0 <= c < arrays.len() ==> (#[trigger] arrays[c]).wf() && arrays[c]@.len()
            == arrays[0]@.len()
}

/// The number of rows of a list of columns of one length.
pub open spec fn rows_in(arrays: Seq<ColumnArray>) -> int {
    if arrays.len() == 0 {
        0
    } else {
        arrays[0]@.len() as int
    }
}

/// The first column that cannot be hashed as a key, or the number of columns
/// where all can.
pub open spec fn first_non_key(arrays: Seq<ColumnArray>, from: int) -> int
    decreases arrays.len() - from,
{
    if from >= arrays.len() {
        arrays.len() as int
    } else if !arrays[from].data_type.is_key_type() {
        from
    } else {
        first_non_key(arrays, from + 1)
    }
}

/// The first row from `q` on that carries the tuple of row `p`, which is `p`
/// at the latest.
pub open spec fn least_like(cols: Seq<Seq<Key>>, p: int, q: int) -> int
    decreases p - q,
{
    if q >= p {
        p
    } else if row_tuple(cols, q) == row_tuple(cols, p) {
        q
    } else {
        least_like(cols, p, q + 1)
    }
}

/// One key per row that stands for the row's tuple of keys: the key itself
/// where there is one key column, otherwise the number of the first row that
/// carries the same tuple.
pub open spec fn reduced_keys(cols: Seq<Seq<Key>>, n: int) -> Seq<Key> {
    if cols.len() == 1 {
        cols[0]
    } else {
        Seq::new(n as nat, |p: int| Some(least_like(cols, p, 0) as i128))
    }
}

/// What `least_like` finds: a row no later than `p` with the tuple of `p`,
/// before which no row from `q` on has that tuple.
pub proof fn lemma_least_like(cols: Seq<Seq<Key>>, p: int, q: int)
    requires
        0 <= q <= p,
    ensures
        q <= least_like(cols, p, q) <= p,
        row_tuple(cols, least_like(cols, p, q)) == row_tuple(cols, p),
        forall|j: int| q <= j < least_like(cols, p, q) ==> row_tuple(cols, j) != row_tuple(cols, p),
    decreases p - q,
{
    if q < p && row_tuple(cols, q) != row_tuple(cols, p) {
        lemma_least_like(cols, p, q + 1);
    }
}

/// Rows have the same reduced key exactly when they carry the same tuple.
pub proof fn lemma_reduced_keys(cols: Seq<Seq<Key>>, n: int, a: int, b: int)
    requires
        cols.len() >= 1,
        forall|c: int| 0 <= c < cols.len() ==> (#[trigger] cols[c]).len() == n,
        n <= u32::MAX,
        0 <= a < n,
        0 <= b < n,
    ensures
        reduced_keys(cols, n)[a] == reduced_keys(cols, n)[b] <==> row_tuple(cols, a) == row_tuple(
            cols,
            b,
        ),
{
    if cols.len() == 1 {
        lemma_same_tuple(cols, a, b);
        assert(same_upto(cols, 1, a, b) <==> cols[0][a] == cols[0][b]) by {
            if cols[0][a] == cols[0][b] {
                assert forall|j: int| 0 <= j < 1 implies (#[trigger] cols[j])[a] == cols[j][b] by {}
            }
        }
    } else {
        lemma_least_like(cols, a, 0);
        lemma_least_like(cols, b, 0);
        let x = least_like(cols, a, 0);
        let y = least_like(cols, b, 0);
        if row_tuple(cols, a) == row_tuple(cols, b) {
            if x < y {
                assert(row_tuple(cols, x) != row_tuple(cols, b));
            }
            if y < x {
                assert(row_tuple(cols, y) != row_tuple(cols, a));
            }
        }
    }
}

/// A well-formed column of an integer type holds keys in range.
pub proof fn lemma_keys_in_range(array: &ColumnArray)
    requires
        array.wf(),
        array.data_type.is_key_type(),
    ensures
        keys_in_range(column_keys(array@)),
{
    assert forall|p: int| 0 <= p < column_keys(array@).len() implies key_in_range(
        #[trigger] column_keys(array@)[p],
    ) by {
        assert(array.data_type.admits(array@[p]));
    }
}

/// Reduces the key columns of a table to one key per row, such that rows have
/// the same key exactly when they agree on every key column.
///
/// Refused where there is no key column, where a column is not of an integer
/// type, and where there are more rows than 32 bits can number.
pub fn arrays_to_array(arrays: &Vec<ColumnArray>) -> (r: Result<Vec<Key>, TableError>)
    requires
        arrays_wf(arrays@),
    ensures
        r is Ok <==> arrays.len() > 0 && first_non_key(arrays@, 0) == arrays.len() && rows_in(
            arrays@,
        ) <= u32::MAX,
        r matches Ok(keys) ==> keys@ == reduced_keys(cols_of(arrays@), rows_in(arrays@)),
        r matches Err(e) ==> if arrays.len() == 0 {
            e is KeyTypeMismatch
        } else if first_non_key(arrays@, 0) < arrays.len() {
            e == TableError::UnsupportedKeyType(
                arrays[first_non_key(arrays@, 0)].data_type,
            )
        } else {
            e is Overflow
        },
{
    if arrays.len() == 0 {
        return Err(TableError::KeyTypeMismatch);
    }
    let mut c: usize = 0;
    while c < arrays.len()
        invariant
            c <= arrays.len(),
            first_non_key(arrays@, 0) == first_non_key(arrays@, c as int),
            forall|j: int| 0 <= j < c ==> (#[trigger] arrays[j]).data_type.is_key_type(),
        decreases arrays.len() - c,
    {
        if !arrays[c].data_type().key_type() {
            return Err(TableError::UnsupportedKeyType(arrays[c].data_type()));
        }
        c += 1;
    }
    let n = arrays[0].len();
    if n > u32::MAX as usize {
        return Err(TableError::Overflow);
    }
    if arrays.len() == 1 {
        let keys = arrays[0].keys();
        assert(cols_of(arrays@)[0] == column_keys(arrays[0]@));
        return Ok(keys);
    }
    let mut cols: Vec<Vec<Key>> = Vec::new();
    let mut c: usize = 0;
    while c < arrays.len()
        invariant
            c <= arrays.len(),
            arrays_wf(arrays@),
            n == arrays[0]@.len(),
            forall|j: int| 0 <= j < arrays.len() ==> (#[trigger] arrays[j]).data_type.is_key_type(),
            cols.len() == c,
            forall|j: int| 0 <= j < c ==> (#[trigger] cols[j])@ == column_keys(arrays[j]@),
            key_cols_wf(cols@, n as int),
        decreases arrays.len() - c,
    {
        proof {
            lemma_keys_in_range(&arrays[c as int]);
        }
        cols.push(arrays[c].keys());
        c += 1;
    }
    let ids = hash_group_merge_recur(&cols, n);
    let ghost cv = cols_view(cols@);
    assert(cv =~= cols_of(arrays@));
    let mut keys: Vec<Key> = Vec::new();
    let mut p: usize = 0;
    while p < n
        invariant
            p <= n,
            n <= u32::MAX,
            cv.len() == arrays.len(),
            names_first(ids@, cv, cv.len() as int, n as int),
            keys.len() == p,
            forall|j: int| 0 <= j < p ==> #[trigger] keys[j] == Some(least_like(cv, j, 0) as i128),
        decreases n - p,
    {
        proof {
            lemma_first_is_least(ids@, cv, n as int, p as int, 0);
        }
        keys.push(Some(ids[p] as i128));
        p += 1;
    }
    assert(keys@ =~= reduced_keys(cv, n as int));
    Ok(keys)
}

/// The name that `names_first` gives a row is the first row like it.
pub proof fn lemma_first_is_least(ids: Seq<u32>, cols: Seq<Seq<Key>>, n: int, p: int, q: int)
    requires
        names_first(ids, cols, cols.len() as int, n),
        0 <= p < n,
        0 <= q <= ids[p],
    ensures
        least_like(cols, p, q) == ids[p],
    decreases ids[p] - q,
{
    let r = ids[p] as int;
    lemma_same_tuple(cols, r, p);
    if q < r {
        lemma_same_tuple(cols, q, p);
        if same_upto(cols, cols.len() as int, q, p) {
            assert(ids[p] <= q);
        }
        lemma_first_is_least(ids, cols, n, p, q + 1);
    } else if q < p {
        assert(row_tuple(cols, q) == row_tuple(cols, p));
    }
}

/// Builds the last-writer-wins index of the reduced keys of a table's key
/// columns.
pub fn arrays_to_idx(arrays: &Vec<ColumnArray>) -> (r: Result<LastIndex, TableError>)
    requires
        arrays_wf(arrays@),
    ensures
        r is Ok <==> arrays.len() > 0 && first_non_key(arrays@, 0) == arrays.len() && rows_in(
            arrays@,
        ) <= u32::MAX,
        r matches Ok(idx) ==> idx.wf() && idx@ == last_index_of_keys(
            reduced_keys(cols_of(arrays@), rows_in(arrays@)),
        ),
        r matches Err(e) ==> if arrays.len() == 0 {
            e is KeyTypeMismatch
        } else if first_non_key(arrays@, 0) < arrays.len() {
            e == TableError::UnsupportedKeyType(
                arrays[first_non_key(arrays@, 0)].data_type,
            )
        } else {
            e is Overflow
        },
{
    match arrays_to_array(arrays) {
        Ok(keys) => {
            proof {
                if arrays.len() != 1 {
                    assert(keys@.len() == rows_in(arrays@));
                } else {
                    assert(cols_of(arrays@)[0] == column_keys(arrays[0]@));
                }
            }
            Ok(hashmap_primitive_to_idx_par(&keys))
        },
        Err(e) => Err(e),
    }
}

/// The key columns of two sides laid end to end: the rows of the left side
/// first, then those of the right.
pub open spec fn joint_cols(left: Seq<Seq<Key>>, right: Seq<Seq<Key>>) -> Seq<Seq<Key>> {
    Seq::new(left.len(), |c: int| left[c] + right[c])
}

/// Whether two lists of key columns agree in number and, column by column, in
/// type.
pub open spec fn same_key_types(left: Seq<ColumnArray>, right: Seq<ColumnArray>) -> bool {
    &&& left.len() == right.len()
    &&& forall|c: int| 0 <= c < left.len() ==> (#[trigger] left[c]).data_type == right[c].data_type
}

/// Reduces the key columns of two sides to one key per row each, such that
/// two rows, of one side or of both, have the same key exactly when they
/// agree on every key column.
///
/// Refused where the sides differ in the number or the types of their key
/// columns or have none, where a column is not of an integer type, and where
/// the two sides together have more rows than 32 bits can number.
pub fn joint_keys(left: &Vec<ColumnArray>, right: &Vec<ColumnArray>) -> (r: Result<
    (Vec<Key>, Vec<Key>),
    TableError,
>)
    requires
        arrays_wf(left@),
        arrays_wf(right@),
    ensures
        r is Ok <==> left.len() > 0 && same_key_types(left@, right@) && first_non_key(left@, 0)
            == left.len() && rows_in(left@) + rows_in(right@) <= u32::MAX,
        r matches Ok(sides) ==> sides.0.len() == rows_in(left@) && sides.1.len() == rows_in(
            right@,
        ) && sides.0@ + sides.1@ == reduced_keys(
            joint_cols(cols_of(left@), cols_of(right@)),
            rows_in(left@) + rows_in(right@),
        ),
        r matches Err(e) ==> if left.len() == 0 || !same_key_types(left@, right@) {
            e is KeyTypeMismatch
        } else if first_non_key(left@, 0) < left.len() {
            e == TableError::UnsupportedKeyType(left[first_non_key(left@, 0)].data_type)
        } else {
            e is Overflow
        },
{
    if left.len() == 0 || left.len() != right.len() {
        return Err(TableError::KeyTypeMismatch);
    }
    let n = left[0].len();
    let m = right[0].len();
    let mut joint: Vec<ColumnArray> = Vec::new();
    let mut c: usize = 0;
    while c < left.len()
        invariant
            c <= left.len(),
            left.len() == right.len(),
            left.len() > 0,
            arrays_wf(left@),
            arrays_wf(right@),
            n == left[0]@.len(),
            m == right[0]@.len(),
            joint.len() == c,
            forall|j: int| 0 <= j < c ==> left[j].data_type == (#[trigger] right[j]).data_type,
            forall|j: int|
                0 <= j < c ==> (#[trigger] joint[j]).wf() && joint[j].data_type
                    == left[j].data_type && joint[j]@ == left[j]@ + right[j]@,
        decreases left.len() - c,
    {
        if left[c].data_type() != right[c].data_type() {
            return Err(TableError::KeyTypeMismatch);
        }
        let mut column = left[c].clone();
        proof {
            assert(left[c as int].wf());
            assert forall|i: int| 0 <= i < column.cells.len() implies column.data_type.admits(
                #[trigger] column@[i],
            ) by {
                assert(left[c as int]@[i] == column@[i]);
            }
        }
        column.extend(&right[c]);
        joint.push(column);
        c += 1;
    }
    proof {
        lemma_first_non_key_same(left@, joint@, 0);
        assert(same_key_types(left@, right@));
    }
    proof {
        lemma_first_non_key_bounds(left@, 0);
        let k = first_non_key(left@, 0);
        if k < left.len() {
            assert(joint[k].data_type == left[k].data_type);
        }
        assert(rows_in(joint@) == n + m) by {
            assert(joint[0]@ == left[0]@ + right[0]@);
        }
    }
    match arrays_to_array(&joint) {
        Err(e) => Err(e),
        Ok(keys) => {
            proof {
                assert(cols_of(joint@) =~= joint_cols(cols_of(left@), cols_of(right@))) by {
                    assert forall|j: int| 0 <= j < joint.len() implies cols_of(joint@)[j]
                        == joint_cols(cols_of(left@), cols_of(right@))[j] by {
                        assert(column_keys(left[j]@ + right[j]@) =~= column_keys(left[j]@)
                            + column_keys(right[j]@));
                    }
                }
                if joint.len() == 1 {
                    assert(cols_of(joint@)[0] == column_keys(joint[0]@));
                }
                assert(keys@.len() == n + m);
            }
            let mut lk: Vec<Key> = Vec::new();
            let mut rk: Vec<Key> = Vec::new();
            let mut p: usize = 0;
            while p < n
                invariant
                    p <= n,
                    keys.len() == n + m,
                    lk@ == keys@.subrange(0, p as int),
                decreases n - p,
            {
                lk.push(keys[p]);
                assert(lk@ =~= keys@.subrange(0, p + 1));
                p += 1;
            }
            while p < n + m
                invariant
                    n <= p <= n + m,
                    keys.len() == n + m,
                    rk@ == keys@.subrange(n as int, p as int),
                decreases n + m - p,
            {
                rk.push(keys[p]);
                assert(rk@ =~= keys@.subrange(n as int, p + 1));
                p += 1;
            }
            assert(lk@ + rk@ =~= keys@);
            Ok((lk, rk))
        },
    }
}

/// The first column that is not of a key type lies between `from` and the
/// number of columns.
pub proof fn lemma_first_non_key_bounds(a: Seq<ColumnArray>, from: int)
    requires
        0 <= from <= a.len(),
    ensures
        from <= first_non_key(a, from) <= a.len(),
        first_non_key(a, from) < a.len() ==> !a[first_non_key(a, from)].data_type.is_key_type(),
        forall|c: int| from <= c < first_non_key(a, from) ==> (#[trigger] a[c]).data_type.is_key_type(),
    decreases a.len() - from,
{
    if from < a.len() && a[from].data_type.is_key_type() {
        lemma_first_non_key_bounds(a, from + 1);
    }
}

/// Lists of columns that agree in type, column by column, have the same
/// first column that is not of a key type.
pub proof fn lemma_first_non_key_same(a: Seq<ColumnArray>, b: Seq<ColumnArray>, from: int)
    requires
        a.len() == b.len(),
        0 <= from,
        forall|c: int| 0 <= c < a.len() ==> (#[trigger] a[c]).data_type == b[c].data_type,
    ensures
        first_non_key(a, from) == first_non_key(b, from),
    decreases a.len() - from,
{
    if from < a.len() {
        assert(a[from].data_type == b[from].data_type);
        lemma_first_non_key_same(a, b, from + 1);
    }
}

/// The positions `p` with `lo <= p < hi` whose key is not among `held`,
/// ascending.
pub open spec fn absent_in(keys: Seq<Key>, held: Set<Key>, lo: int, hi: int) -> Seq<u32>
    decreases hi - lo,
{
    if hi <= lo {
        Seq::empty()
    } else {
        let rest = absent_in(keys, held, lo, hi - 1);
        if held.contains(keys[hi - 1]) {
            rest
        } else {
            rest.push((hi - 1) as u32)
        }
    }
}

/// The absent positions of two adjoining stretches are those of the first
/// followed by those of the second.
pub proof fn lemma_absent_split(keys: Seq<Key>, held: Set<Key>, lo: int, mid: int, hi: int)
    requires
        lo <= mid <= hi,
    ensures
        absent_in(keys, held, lo, hi) == absent_in(keys, held, lo, mid) + absent_in(
            keys,
            held,
            mid,
            hi,
        ),
    decreases hi - mid,
{
    let a = absent_in(keys, held, lo, mid);
    if hi > mid {
        lemma_absent_split(keys, held, lo, mid, hi - 1);
        let b = absent_in(keys, held, mid, hi - 1);
        if !held.contains(keys[hi - 1]) {
            assert((a + b).push((hi - 1) as u32) =~= a + b.push((hi - 1) as u32));
        }
    } else {
        assert(a + Seq::<u32>::empty() =~= a);
    }
}

/// Collects the positions of the stretch `lo..hi` whose key the index does
/// not hold.
pub fn slice_absent(keys: &Vec<Key>, index: &LastIndex, lo: usize, hi: usize) -> (out: Vec<u32>)
    requires
        index.wf(),
        lo <= hi <= keys.len() <= u32::MAX,
    ensures
        out@ == absent_in(keys@, index@.dom(), lo as int, hi as int),
{
    let mut out: Vec<u32> = Vec::new();
    let mut p: usize = lo;
    while p < hi
        invariant
            lo <= p <= hi <= keys.len() <= u32::MAX,
            index.wf(),
            out@ == absent_in(keys@, index@.dom(), lo as int, p as int),
        decreases hi - p,
    {
        if !index.contains_key(&keys[p]) {
            out.push(p as u32);
        }
        p += 1;
    }
    out
}

/// Collects the positions of the stretch of worker `w` whose key the index
/// does not hold.
pub fn worker_absent(keys: &Vec<Key>, index: &LastIndex, w: usize, size: usize) -> (out: Vec<u32>)
    requires
        index.wf(),
        keys.len() <= u32::MAX,
        w <= u32::MAX,
    ensures
        out@ == absent_in(
            keys@,
            index@.dom(),
            worker_lo(w as int, size as int, keys@.len() as int),
            worker_hi(w as int, size as int, keys@.len() as int),
        ),
{
    let (lo, hi) = worker_bounds(keys.len(), w, size);
    slice_absent(keys, index, lo, hi)
}

/// Collects, over [`WORKERS`] stretches side by side, the positions whose
/// key the index does not hold, and joins them in the order of the stretches.
pub fn keys_absent(keys: &Vec<Key>, index: &LastIndex) -> (out: Vec<u32>)
    requires
        index.wf(),
        keys.len() <= u32::MAX,
    ensures
        out@ == absent_in(keys@, index@.dom(), 0, keys@.len() as int),
{
    let len = keys.len();
    let size = len / WORKERS + 1;
    let collect = (|w: usize| -> (part: Vec<u32>)
        requires
            WORKERS > w,
        ensures
            part@ == absent_in(
                keys@,
                index@.dom(),
                worker_lo(w as int, size as int, keys@.len() as int),
                worker_hi(w as int, size as int, keys@.len() as int),
            ),
        {
            worker_absent(keys, index, w, size)
        });
    let parts = par_map_range(WORKERS, collect);
    let mut out: Vec<u32> = Vec::new();
    let mut w: usize = 0;
    proof {
        lemma_worker_adjoining(0, size as int, len as int);
    }
    while w < parts.len()
        invariant
            w <= parts.len(),
            parts.len() == WORKERS,
            len == keys@.len(),
            forall|v: int|
                0 <= v < parts.len() ==> (#[trigger] parts[v])@ == absent_in(
                    keys@,
                    index@.dom(),
                    worker_lo(v, size as int, len as int),
                    worker_hi(v, size as int, len as int),
                ),
            out@ == absent_in(keys@, index@.dom(), 0, worker_lo(w as int, size as int, len as int)),
        decreases parts.len() - w,
    {
        let part = &parts[w];
        let ghost before = out@;
        let mut i: usize = 0;
        while i < part.len()
            invariant
                i <= part.len(),
                out@ == before + part@.subrange(0, i as int),
            decreases part.len() - i,
        {
            out.push(part[i]);
            assert(out@ =~= before + part@.subrange(0, i + 1));
            i += 1;
        }
        proof {
            assert(part@.subrange(0, part.len() as int) =~= part@);
            lemma_worker_adjoining(w as int, size as int, len as int);
            assert(0 <= worker_lo(w as int, size as int, len as int)) by {
                assert(w * size >= 0) by (nonlinear_arith)
                    requires
                        0 <= w,
                        0 <= size,
                ;
            }
            lemma_absent_split(
                keys@,
                index@.dom(),
                0,
                worker_lo(w as int, size as int, len as int),
                worker_hi(w as int, size as int, len as int),
            );
        }
        w += 1;
    }
    proof {
        assert(WORKERS * size > len) by (nonlinear_arith)
            requires
                size == len / WORKERS + 1,
                WORKERS == 24,
        ;
    }
    out
}

/// Whether some row of the right side carries the tuple of keys of row `p`
/// of the left side.
pub open spec fn claimed(left: Seq<Seq<Key>>, right: Seq<Seq<Key>>, m: int, p: int) -> bool {
    exists|q: int| 0 <= q < m && #[trigger] row_tuple(right, q) == row_tuple(left, p)
}

/// The rows of the left side before `hi` that no row of the right side
/// claims, ascending.
pub open spec fn unclaimed(left: Seq<Seq<Key>>, right: Seq<Seq<Key>>, m: int, hi: int) -> Seq<u32>
    decreases hi,
{
    if hi <= 0 {
        Seq::empty()
    } else {
        let rest = unclaimed(left, right, m, hi - 1);
        if claimed(left, right, m, hi - 1) {
            rest
        } else {
            rest.push((hi - 1) as u32)
        }
    }
}

/// Rows of the two sides have the same reduced key exactly when they carry
/// the same tuple of keys.
pub proof fn lemma_joint_keys(
    left: Seq<Seq<Key>>,
    right: Seq<Seq<Key>>,
    lk: Seq<Key>,
    rk: Seq<Key>,
    n: int,
    m: int,
    p: int,
    q: int,
)
    requires
        left.len() >= 1,
        left.len() == right.len(),
        forall|c: int| 0 <= c < left.len() ==> (#[trigger] left[c]).len() == n,
        forall|c: int| 0 <= c < right.len() ==> (#[trigger] right[c]).len() == m,
        n + m <= u32::MAX,
        lk.len() == n,
        rk.len() == m,
        lk + rk == reduced_keys(joint_cols(left, right), n + m),
        0 <= p < n,
        0 <= q < m,
    ensures
        lk[p] == rk[q] <==> row_tuple(left, p) == row_tuple(right, q),
{
    let joint = joint_cols(left, right);
    lemma_reduced_keys(joint, n + m, p, n + q);
    assert((lk + rk)[p] == lk[p]);
    assert((lk + rk)[n + q] == rk[q]);
    assert(row_tuple(joint, p) =~= row_tuple(left, p));
    assert(row_tuple(joint, n + q) =~= row_tuple(right, q));
}

/// Where keys stand for tuples on both sides, the positions whose key the
/// right side does not hold are the rows that no right row claims.
pub proof fn lemma_absent_is_unclaimed(
    left: Seq<Seq<Key>>,
    right: Seq<Seq<Key>>,
    lk: Seq<Key>,
    rk: Seq<Key>,
    hi: int,
)
    requires
        0 <= hi <= lk.len(),
        forall|p: int, q: int|
            0 <= p < lk.len() && 0 <= q < rk.len() ==> ((#[trigger] lk[p] == #[trigger] rk[q])
                <==> row_tuple(left, p) == row_tuple(right, q)),
    ensures
        absent_in(lk, last_index_of_keys(rk).dom(), 0, hi) == unclaimed(
            left,
            right,
            rk.len() as int,
            hi,
        ),
    decreases hi,
{
    if hi > 0 {
        lemma_absent_is_unclaimed(left, right, lk, rk, hi - 1);
        let p = hi - 1;
        let held = last_index_of_keys(rk).dom();
        if held.contains(lk[p]) {
            let q = choose|q: int| 0 <= q < rk.len() && rk[q] == lk[p];
            assert(lk[p] == rk[q]);
            assert(row_tuple(right, q) == row_tuple(left, p));
        }
        if claimed(left, right, rk.len() as int, p) {
            let q = choose|q: int|
                0 <= q < rk.len() && #[trigger] row_tuple(right, q) == row_tuple(left, p);
            assert(lk[p] == rk[q]);
            assert(occurs_in(rk, lk[p], 0, rk.len() as int));
        }
    }
}

/// The rows of the left side that survive a delete by the right side: those
/// whose tuple of keys no row of the right side carries, ascending.
pub fn delete_arrays(left: &Vec<ColumnArray>, right: &Vec<ColumnArray>) -> (r: Result<
    Vec<u32>,
    TableError,
>)
    requires
        arrays_wf(left@),
        arrays_wf(right@),
    ensures
        r is Ok <==> left.len() > 0 && same_key_types(left@, right@) && first_non_key(left@, 0)
            == left.len() && rows_in(left@) + rows_in(right@) <= u32::MAX,
        r matches Ok(keep) ==> keep@ == unclaimed(
            cols_of(left@),
            cols_of(right@),
            rows_in(right@),
            rows_in(left@),
        ),
        r matches Err(e) ==> if left.len() == 0 || !same_key_types(left@, right@) {
            e is KeyTypeMismatch
        } else if first_non_key(left@, 0) < left.len() {
            e == TableError::UnsupportedKeyType(left[first_non_key(left@, 0)].data_type)
        } else {
            e is Overflow
        },
{
    match joint_keys(left, right) {
        Err(e) => Err(e),
        Ok((lk, rk)) => {
            let right_map = hashmap_primitive_to_idx_par(&rk);
            let keep = keys_absent(&lk, &right_map);
            proof {
                let lc = cols_of(left@);
                let rc = cols_of(right@);
                let n = rows_in(left@);
                let m = rows_in(right@);
                assert forall|c: int| 0 <= c < lc.len() implies (#[trigger] lc[c]).len() == n by {
                    assert(left[c]@.len() == left[0]@.len());
                }
                assert forall|c: int| 0 <= c < rc.len() implies (#[trigger] rc[c]).len() == m by {
                    assert(right[c]@.len() == right[0]@.len());
                }
                assert forall|p: int, q: int| 0 <= p < lk.len() && 0 <= q < rk.len() implies ((
                #[trigger] lk@[p] == #[trigger] rk@[q]) <==> row_tuple(lc, p) == row_tuple(
                    rc,
                    q,
                )) by {
                    lemma_joint_keys(lc, rc, lk@, rk@, n, m, p, q);
                }
                lemma_absent_is_unclaimed(lc, rc, lk@, rk@, n);
            }
            Ok(keep)
        },
    }
}

/// The rows that make up an upsert of the left side by the right side: the
/// rows of the left side whose tuple of keys no row of the right side
/// carries, ascending, and every row of the right side, in order.
pub fn merge_arrays(left: &Vec<ColumnArray>, right: &Vec<ColumnArray>) -> (r: Result<
    (Vec<u32>, Vec<u32>),
    TableError,
>)
    requires
        arrays_wf(left@),
        arrays_wf(right@),
    ensures
        r is Ok <==> left.len() > 0 && same_key_types(left@, right@) && first_non_key(left@, 0)
            == left.len() && rows_in(left@) + rows_in(right@) <= u32::MAX,
        r matches Ok(sides) ==> sides.0@ == unclaimed(
            cols_of(left@),
            cols_of(right@),
            rows_in(right@),
            rows_in(left@),
        ) && sides.1@ == Seq::new(rows_in(right@) as nat, |q: int| q as u32),
        r matches Err(e) ==> if left.len() == 0 || !same_key_types(left@, right@) {
            e is KeyTypeMismatch
        } else if first_non_key(left@, 0) < left.len() {
            e == TableError::UnsupportedKeyType(left[first_non_key(left@, 0)].data_type)
        } else {
            e is Overflow
        },
{
    match delete_arrays(left, right) {
        Err(e) => Err(e),
        Ok(keep) => {
            let m = right[0].len();
            let mut all: Vec<u32> = Vec::new();
            let mut q: usize = 0;
            while q < m
                invariant
                    q <= m <= u32::MAX,
                    all.len() == q,
                    forall|j: int| 0 <= j < q ==> #[trigger] all[j] == j as u32,
                decreases m - q,
            {
                all.push(q as u32);
                q += 1;
            }
            assert(all@ =~= Seq::new(rows_in(right@) as nat, |q: int| q as u32));
            Ok((keep, all))
        },
    }
}

} // verus!
