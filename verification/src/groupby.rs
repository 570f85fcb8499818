//! Grouping the rows of key columns by the tuple of keys they carry.

use crate::column::{column_keys, ColumnArray, Key};
use crate::datatypes::TableError;
use crate::hash_index::{
    copy_positions, first_seen, hashmap_primitive_to_idxs_par, index_of_keys, lemma_positions_exact, occurs_in,
    positions_in, HashIndex,
};
use vstd::prelude::*;

verus! {

/// Builds the hash index of a key column, refusing columns whose type is not
/// one of the integer types.
pub fn array_to_idxs(array: &ColumnArray) -> (r: Result<HashIndex, TableError>)
    requires
        array@.len() <= u32::MAX,
    ensures
        r is Ok <==> array.data_type.is_key_type(),
        r matches Ok(idx) ==> idx.wf() && idx@ == index_of_keys(column_keys(array@)) && idx.keys@
            == first_seen(column_keys(array@), 0, array@.len() as int),
        r matches Err(e) ==> e == TableError::UnsupportedKeyType(array.data_type),
{
    if !array.data_type().key_type() {
        return Err(TableError::UnsupportedKeyType(array.data_type()));
    }
    let keys = array.keys();
    Ok(hashmap_primitive_to_idxs_par(&keys))
}

/// Gather by index on one column.
pub fn array_take_idxs(array: &ColumnArray, idxs: &Vec<u32>) -> (r: Result<
    ColumnArray,
    TableError,
>)
    requires
        array.wf(),
    ensures
        r is Ok <==> crate::column::all_below(idxs@, array@.len() as int),
        r matches Ok(c) ==> c.wf() && c.data_type == array.data_type && c@
            == crate::column::gather(array@, idxs@),
        r matches Err(e) ==> e is IndexOutOfRange,
{
    array.take(idxs)
}

/// Whether a key is null or an integer that some integer column can hold.
pub open spec fn key_in_range(k: Key) -> bool {
    k matches Some(v) ==> -0x8000_0000_0000_0000 <= v <= 0xffff_ffff_ffff_ffff
}

/// Whether every key of a column is in range.
pub open spec fn keys_in_range(keys: Seq<Key>) -> bool {
    forall|p: int| 0 <= p < keys.len() ==> key_in_range(#[trigger] keys[p])
}

/// A row number and a key as one integer: the row number above bit 67, the
/// key below it.
pub open spec fn pack_spec(id: u32, key: Key) -> int {
    id * 0x8_0000_0000_0000_0000 + match key {
        None => 0x4_0000_0000_0000_0000,
        Some(v) => v + 0x8000_0000_0000_0000,
    }
}

/// Distinct pairs have distinct packed forms.
pub proof fn lemma_pack_injective(a: u32, j: Key, b: u32, k: Key)
    requires
        key_in_range(j),
        key_in_range(k),
        pack_spec(a, j) == pack_spec(b, k),
    ensures
        a == b,
        j == k,
{
}

/// Packs a row number and a key into one integer.
pub fn pack(id: u32, key: Key) -> (r: i128)
    requires
        key_in_range(key),
    ensures
        r == pack_spec(id, key),
{
    let low: i128 = match key {
        None => 0x4_0000_0000_0000_0000,
        Some(v) => v + 0x8000_0000_0000_0000,
    };
    (id as i128) * 0x8_0000_0000_0000_0000 + low
}

/// Whether rows `p` and `q` agree on the first `c` key columns.
pub open spec fn same_upto(cols: Seq<Seq<Key>>, c: int, p: int, q: int) -> bool {
    forall|j: int| 0 <= j < c ==> (#[trigger] cols[j])[p] == cols[j][q]
}

/// Whether `ids` names each of the `n` rows by the first row that agrees with
/// it on the first `c` key columns.
pub open spec fn names_first(ids: Seq<u32>, cols: Seq<Seq<Key>>, c: int, n: int) -> bool {
    &&& ids.len() == n
    &&& forall|p: int|
        0 <= p < n ==> (#[trigger] ids[p]) <= p && same_upto(cols, c, ids[p] as int, p)
    &&& forall|p: int, q: int|
        0 <= q < p < n && #[trigger] same_upto(cols, c, q, p) ==> ids[p] <= q
}

/// Rows named alike agree on the columns, and rows that agree are named alike.
pub proof fn lemma_names_agree(ids: Seq<u32>, cols: Seq<Seq<Key>>, c: int, n: int, p: int, q: int)
    requires
        names_first(ids, cols, c, n),
        0 <= p < n,
        0 <= q < n,
    ensures
        ids[p] == ids[q] <==> same_upto(cols, c, p, q),
{
    let a = ids[p] as int;
    let b = ids[q] as int;
    if ids[p] == ids[q] {
        assert(same_upto(cols, c, a, p));
        assert(same_upto(cols, c, a, q));
        assert(same_upto(cols, c, p, q));
    }
    if same_upto(cols, c, p, q) {
        assert(same_upto(cols, c, a, p));
        assert(same_upto(cols, c, b, q));
        // a agrees with q and b agrees with p, so neither can lie before the other
        assert(same_upto(cols, c, a, q));
        assert(same_upto(cols, c, b, p));
        if a < q {
            assert(ids[q] <= a);
        }
        if b < p {
            assert(ids[p] <= b);
        }
    }
}

/// Refines a naming of rows by one more key column: each row is named by the
/// first row that has the same name and carries the same key.
pub fn hash_group_merge(keys: &Vec<Key>, ids: &Vec<u32>) -> (refined: Vec<u32>)
    requires
        keys.len() == ids.len(),
        keys.len() <= u32::MAX,
        keys_in_range(keys@),
    ensures
        refined.len() == ids.len(),
        forall|p: int|
            0 <= p < refined.len() ==> (#[trigger] refined[p]) <= p && ids[refined[p] as int]
                == ids[p] && keys[refined[p] as int] == keys[p],
        forall|p: int, q: int|
            #![trigger refined[p], ids[q]]
            0 <= q < p < refined.len() && ids[q] == ids[p] && keys[q] == keys[p] ==> refined[p]
                <= q,
{
    let n = keys.len();
    let mut packed: Vec<Key> = Vec::new();
    let mut p: usize = 0;
    while p < n
        invariant
            p <= n,
            n == keys.len(),
            n == ids.len(),
            keys_in_range(keys@),
            packed.len() == p,
            forall|j: int|
                0 <= j < p ==> #[trigger] packed[j] == Some(pack_spec(ids[j], keys[j]) as i128),
        decreases n - p,
    {
        packed.push(Some(pack(ids[p], keys[p])));
        p += 1;
    }
    let idx = hashmap_primitive_to_idxs_par(&packed);
    let mut refined: Vec<u32> = Vec::new();
    let mut p: usize = 0;
    while p < n
        invariant
            p <= n,
            n == keys.len(),
            n == ids.len(),
            n <= u32::MAX,
            keys_in_range(keys@),
            packed.len() == n,
            forall|j: int|
                0 <= j < n ==> #[trigger] packed[j] == Some(pack_spec(ids[j], keys[j]) as i128),
            idx.wf(),
            idx@ == index_of_keys(packed@),
            refined.len() == p,
            forall|j: int|
                0 <= j < p ==> (#[trigger] refined[j]) <= j && ids[refined[j] as int] == ids[j]
                    && keys[refined[j] as int] == keys[j],
            forall|j: int, q: int|
                #![trigger refined[j], ids[q]]
                0 <= q < j < p && ids[q] == ids[j] && keys[q] == keys[j] ==> refined[j] <= q,
        decreases n - p,
    {
        let ghost k = packed[p as int];
        proof {
            assert(occurs_in(packed@, k, 0, n as int)) by {
                assert(0 <= p < n && packed@[p as int] == k);
            }
            lemma_positions_exact(packed@, k, 0, n as int);
        }
        let group = idx.get(&packed[p]).unwrap();
        proof {
            let pos = positions_in(packed@, k, 0, n as int);
            assert(group@ == pos);
            assert(pos.contains(p as u32));
            let at = choose|i: int| 0 <= i < pos.len() && pos[i] == p as u32;
            assert(pos.len() > 0);
            let first = pos[0] as int;
            assert(first <= p) by {
                if at > 0 {
                    assert(pos[0] < pos[at]);
                }
            }
            assert(packed[first] == k);
            lemma_pack_injective(ids[first], keys[first], ids[p as int], keys[p as int]);
            assert forall|q: int|
                0 <= q < p && ids[q] == ids[p as int] && keys[q] == keys[p as int] implies first
                <= q by {
                assert(packed@[q] == k);
                assert(pos.contains(q as u32));
                let i = choose|i: int| 0 <= i < pos.len() && pos[i] == q as u32;
                if i > 0 {
                    assert(pos[0] < pos[i]);
                }
            }
        }
        refined.push(group[0]);
        p += 1;
    }
    refined
}

/// The key columns as sequences.
pub open spec fn cols_view(cols: Seq<Vec<Key>>) -> Seq<Seq<Key>> {
    cols.map_values(|c: Vec<Key>| c@)
}

/// Whether there are `n` rows of in-range keys in every column.
pub open spec fn key_cols_wf(cols: Seq<Vec<Key>>, n: int) -> bool {
    forall|c: int| 0 <= c < cols.len() ==> (#[trigger] cols[c]).len() == n && keys_in_range(cols[c]@)
}

/// Names each of `n` rows by the first row that carries the same tuple of
/// keys, refining the naming column by column.
pub fn hash_group_merge_recur(cols: &Vec<Vec<Key>>, n: usize) -> (ids: Vec<u32>)
    requires
        n <= u32::MAX,
        key_cols_wf(cols@, n as int),
    ensures
        names_first(ids@, cols_view(cols@), cols.len() as int, n as int),
{
    let mut ids: Vec<u32> = Vec::new();
    let mut p: usize = 0;
    while p < n
        invariant
            p <= n,
            ids.len() == p,
            forall|j: int| 0 <= j < p ==> #[trigger] ids[j] == 0,
        decreases n - p,
    {
        ids.push(0);
        p += 1;
    }
    let mut c: usize = 0;
    while c < cols.len()
        invariant
            c <= cols.len(),
            n <= u32::MAX,
            key_cols_wf(cols@, n as int),
            names_first(ids@, cols_view(cols@), c as int, n as int),
        decreases cols.len() - c,
    {
        let refined = hash_group_merge(&cols[c], &ids);
        proof {
            let cv = cols_view(cols@);
            assert(cv[c as int] == cols[c as int]@);
            assert forall|p: int| 0 <= p < n implies same_upto(
                cv,
                c + 1,
                (#[trigger] refined[p]) as int,
                p,
            ) by {
                lemma_names_agree(ids@, cv, c as int, n as int, refined[p] as int, p);
            }
            assert forall|p: int, q: int|
                0 <= q < p < n && #[trigger] same_upto(cv, c + 1, q, p) implies refined[p]
                <= q by {
                assert(same_upto(cv, c as int, q, p));
                lemma_names_agree(ids@, cv, c as int, n as int, q, p);
                assert(cv[c as int][q] == cv[c as int][p]);
            }
        }
        ids = refined;
        c += 1;
    }
    ids
}

/// The tuple of keys that row `p` carries.
pub open spec fn row_tuple(cols: Seq<Seq<Key>>, p: int) -> Seq<Key> {
    Seq::new(cols.len(), |c: int| cols[c][p])
}

/// The rows before `hi` that carry the tuple `t`, ascending.
pub open spec fn rows_with(cols: Seq<Seq<Key>>, t: Seq<Key>, hi: int) -> Seq<u32>
    decreases hi,
{
    if hi <= 0 {
        Seq::empty()
    } else {
        let rest = rows_with(cols, t, hi - 1);
        if row_tuple(cols, hi - 1) == t {
            rest.push((hi - 1) as u32)
        } else {
            rest
        }
    }
}

/// Rows carry the same tuple exactly when they agree on every column.
pub proof fn lemma_same_tuple(cols: Seq<Seq<Key>>, p: int, q: int)
    ensures
        row_tuple(cols, p) == row_tuple(cols, q) <==> same_upto(cols, cols.len() as int, p, q),
{
    if same_upto(cols, cols.len() as int, p, q) {
        assert(row_tuple(cols, p) =~= row_tuple(cols, q));
    }
    if row_tuple(cols, p) == row_tuple(cols, q) {
        assert forall|j: int| 0 <= j < cols.len() implies (#[trigger] cols[j])[p] == cols[j][q] by {
            assert(row_tuple(cols, p)[j] == row_tuple(cols, q)[j]);
        }
    }
}

/// Where a key column holds `k` exactly on the rows that carry `t`, the
/// positions of `k` are the rows with `t`.
pub proof fn lemma_positions_are_rows(
    keys: Seq<Key>,
    k: Key,
    cols: Seq<Seq<Key>>,
    t: Seq<Key>,
    hi: int,
)
    requires
        0 <= hi <= keys.len(),
        forall|p: int| 0 <= p < hi ==> ((#[trigger] keys[p] == k) <==> row_tuple(cols, p) == t),
    ensures
        positions_in(keys, k, 0, hi) == rows_with(cols, t, hi),
    decreases hi,
{
    if hi > 0 {
        lemma_positions_are_rows(keys, k, cols, t, hi - 1);
        assert((keys[hi - 1] == k) <==> row_tuple(cols, hi - 1) == t);
    }
}

/// One group of rows: the tuple of keys they share, and their positions.
#[derive(Debug, PartialEq, Eq)]
pub struct Group {
    pub key: Vec<Key>,
    pub rows: Vec<u32>,
}

/// Whether some group has the tuple `t`.
pub open spec fn has_group(groups: Seq<Group>, t: Seq<Key>) -> bool {
    exists|g: int| 0 <= g < groups.len() && (#[trigger] groups[g]).key@ == t
}

/// Whether `groups` is the partition of `n` rows by the tuple of keys they
/// carry: each group holds, in ascending order, every row with its tuple; no
/// two groups share a tuple; and every row's tuple has a group.
pub open spec fn is_grouping(groups: Seq<Group>, cols: Seq<Seq<Key>>, n: int) -> bool {
    &&& forall|g: int|
        0 <= g < groups.len() ==> (#[trigger] groups[g]).rows@.len() > 0 && groups[g].rows[0] < n
            && groups[g].key@ == row_tuple(cols, groups[g].rows[0] as int) && groups[g].rows@
            == rows_with(cols, groups[g].key@, n)
    &&& forall|g: int, h: int|
        0 <= g < h < groups.len() ==> (#[trigger] groups[g]).key@ != (#[trigger] groups[h]).key@
    &&& forall|p: int| 0 <= p < n ==> has_group(groups, #[trigger] row_tuple(cols, p))
}

/// The tuple of keys carried by row `p`.
fn key_tuple(cols: &Vec<Vec<Key>>, p: usize) -> (t: Vec<Key>)
    requires
        forall|c: int| 0 <= c < cols.len() ==> p < (#[trigger] cols[c]).len(),
    ensures
        t@ == row_tuple(cols_view(cols@), p as int),
{
    let mut t: Vec<Key> = Vec::new();
    let mut c: usize = 0;
    while c < cols.len()
        invariant
            c <= cols.len(),
            forall|c: int| 0 <= c < cols.len() ==> p < (#[trigger] cols[c]).len(),
            t.len() == c,
            forall|j: int| 0 <= j < c ==> #[trigger] t[j] == cols[j][p as int],
        decreases cols.len() - c,
    {
        t.push(cols[c][p]);
        c += 1;
    }
    assert(t@ =~= row_tuple(cols_view(cols@), p as int));
    t
}

/// Partitions `n` rows by the tuple of keys they carry in `cols`.
pub fn groupby_keys(cols: &Vec<Vec<Key>>, n: usize) -> (groups: Vec<Group>)
    requires
        n <= u32::MAX,
        key_cols_wf(cols@, n as int),
    ensures
        is_grouping(groups@, cols_view(cols@), n as int),
{
    let ids = hash_group_merge_recur(cols, n);
    let ghost cv = cols_view(cols@);
    let mut id_keys: Vec<Key> = Vec::new();
    let mut p: usize = 0;
    while p < n
        invariant
            p <= n,
            ids.len() == n,
            id_keys.len() == p,
            forall|j: int| 0 <= j < p ==> #[trigger] id_keys[j] == Some(ids[j] as i128),
        decreases n - p,
    {
        id_keys.push(Some(ids[p] as i128));
        p += 1;
    }
    let idx = hashmap_primitive_to_idxs_par(&id_keys);
    let mut groups: Vec<Group> = Vec::new();
    let mut j: usize = 0;
    while j < idx.keys.len()
        invariant
            j <= idx.keys.len(),
            n <= u32::MAX,
            key_cols_wf(cols@, n as int),
            cv == cols_view(cols@),
            names_first(ids@, cv, cols.len() as int, n as int),
            id_keys.len() == n,
            forall|q: int| 0 <= q < n ==> #[trigger] id_keys[q] == Some(ids[q] as i128),
            idx.wf(),
            idx@ == index_of_keys(id_keys@),
            groups.len() == j,
            forall|g: int|
                0 <= g < j ==> (#[trigger] groups[g]).rows@.len() > 0 && groups[g].rows[0] < n
                    && groups[g].key@ == row_tuple(cv, groups[g].rows[0] as int)
                    && groups[g].rows@ == rows_with(cv, groups[g].key@, n as int)
                    && id_keys[groups[g].rows[0] as int] == idx.keys[g],
        decreases idx.keys.len() - j,
    {
        let ghost k = idx.keys[j as int];
        proof {
            assert(idx.has(k) && idx.slot_of(k) == j);
            assert(idx@.contains_key(k));
            lemma_positions_exact(id_keys@, k, 0, n as int);
            let w = choose|w: int| 0 <= w < n && id_keys@[w] == k;
            assert(positions_in(id_keys@, k, 0, n as int).contains(w as u32));
        }
        let rows = copy_positions(&idx.groups[j]);
        proof {
            let pos = positions_in(id_keys@, k, 0, n as int);
            assert(idx@[k] == idx.groups[j as int]@);
            assert(index_of_keys(id_keys@)[k] == pos);
            assert(rows@ == pos);
            assert(pos.len() > 0);
            assert(pos[0] < n && id_keys@[pos[0] as int] == k);
        }
        let first = rows[0] as usize;
        let key = key_tuple(cols, first);
        proof {
            let t = row_tuple(cv, first as int);
            assert forall|q: int| 0 <= q < n implies ((#[trigger] id_keys@[q] == k) <==> row_tuple(
                cv,
                q,
            ) == t) by {
                lemma_names_agree(ids@, cv, cols.len() as int, n as int, q, first as int);
                lemma_same_tuple(cv, q, first as int);
            }
            lemma_positions_are_rows(id_keys@, k, cv, t, n as int);
        }
        groups.push(Group { key, rows });
        j += 1;
    }
    proof {
        assert forall|g: int, h: int| 0 <= g < h < groups.len() implies (#[trigger] groups[g]).key@
            != (#[trigger] groups[h]).key@ by {
            let a = groups[g].rows[0] as int;
            let b = groups[h].rows[0] as int;
            assert(idx.slot_of(idx.keys[g]) == g && idx.slot_of(idx.keys[h]) == h);
            assert(id_keys[a] != id_keys[b]);
            lemma_names_agree(ids@, cv, cols.len() as int, n as int, a, b);
            lemma_same_tuple(cv, a, b);
        }
        assert forall|p: int| 0 <= p < n implies has_group(
            groups@,
            #[trigger] row_tuple(cv, p),
        ) by {
            let k = id_keys@[p];
            assert(occurs_in(id_keys@, k, 0, n as int));
            assert(idx@.contains_key(k));
            let g = idx.slot_of(k);
            assert(idx.keys[g] == k);
            let a = groups[g].rows[0] as int;
            lemma_names_agree(ids@, cv, cols.len() as int, n as int, a, p);
            lemma_same_tuple(cv, a, p);
            assert(groups@[g].key@ == row_tuple(cv, p));
        }
    }
    groups
}

/// Distinct numbers below `n` are at most `n`.
pub proof fn lemma_distinct_below(s: Seq<int>, n: int)
    requires
        0 <= n,
        s.no_duplicates(),
        forall|i: int| 0 <= i < s.len() ==> 0 <= #[trigger] s[i] < n,
    ensures
        s.len() <= n,
{
    s.unique_seq_to_set();
    vstd::set_lib::lemma_int_range(0, n);
    assert(s.to_set().subset_of(vstd::set_lib::set_int_range(0, n))) by {
        assert forall|x: int| s.to_set().contains(x) implies vstd::set_lib::set_int_range(
            0,
            n,
        ).contains(x) by {
            let i = choose|i: int| 0 <= i < s.len() && s[i] == x;
            assert(0 <= s[i] < n);
        }
    }
    vstd::set_lib::lemma_len_subset(s.to_set(), vstd::set_lib::set_int_range(0, n));
}

/// A grouping has no more groups than there are rows.
pub proof fn lemma_grouping_count(groups: Seq<Group>, cols: Seq<Seq<Key>>, n: int)
    requires
        0 <= n,
        is_grouping(groups, cols, n),
    ensures
        groups.len() <= n,
{
    let firsts = Seq::new(groups.len(), |g: int| groups[g].rows[0] as int);
    assert forall|g: int, h: int| 0 <= g < h < firsts.len() implies firsts[g] != firsts[h] by {
        assert(groups[g].key@ != groups[h].key@);
    }
    assert forall|g: int| 0 <= g < firsts.len() implies 0 <= #[trigger] firsts[g] < n by {
        assert(groups[g].rows[0] < n);
    }
    lemma_distinct_below(firsts, n);
}

/// Partitions the rows of a list of key columns by the tuple of keys they
/// carry. Refused where a column is not of an integer type and where there
/// are more rows than 32 bits can number.
pub fn groupby_many(arrays: &Vec<ColumnArray>) -> (r: Result<Vec<Group>, TableError>)
    requires
        crate::merge::arrays_wf(arrays@),
    ensures
        r is Ok <==> crate::merge::first_non_key(arrays@, 0) == arrays.len()
            && crate::merge::rows_in(arrays@) <= u32::MAX,
        r matches Ok(groups) ==> is_grouping(
            groups@,
            crate::merge::cols_of(arrays@),
            crate::merge::rows_in(arrays@),
        ),
        r matches Err(e) ==> if crate::merge::first_non_key(arrays@, 0) < arrays.len() {
            e == TableError::UnsupportedKeyType(
                arrays[crate::merge::first_non_key(arrays@, 0)].data_type,
            )
        } else {
            e is Overflow
        },
{
    let mut cols: Vec<Vec<Key>> = Vec::new();
    let mut c: usize = 0;
    proof {
        crate::merge::lemma_first_non_key_bounds(arrays@, 0);
    }
    while c < arrays.len()
        invariant
            c <= arrays.len(),
            crate::merge::arrays_wf(arrays@),
            crate::merge::first_non_key(arrays@, 0) == crate::merge::first_non_key(
                arrays@,
                c as int,
            ),
            cols.len() == c,
            forall|j: int|
                0 <= j < c ==> (#[trigger] cols[j])@ == column_keys(arrays[j]@) && keys_in_range(
                    cols[j]@,
                ),
        decreases arrays.len() - c,
    {
        if !arrays[c].data_type().key_type() {
            return Err(TableError::UnsupportedKeyType(arrays[c].data_type()));
        }
        proof {
            crate::merge::lemma_keys_in_range(&arrays[c as int]);
        }
        cols.push(arrays[c].keys());
        c += 1;
    }
    let n: usize = if arrays.len() == 0 {
        0
    } else {
        arrays[0].len()
    };
    if n > u32::MAX as usize {
        return Err(TableError::Overflow);
    }
    assert(cols_view(cols@) =~= crate::merge::cols_of(arrays@));
    Ok(groupby_keys(&cols, n))
}

} // verus!
