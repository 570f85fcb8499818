//! Inner join by key: the pairs of rows of two sides that carry the same
//! tuple of keys.

use crate::column::{ColumnArray, Key};
use crate::datatypes::TableError;
use crate::groupby::{lemma_positions_are_rows, row_tuple, rows_with};
use crate::hash_index::{
    hashmap_primitive_to_idxs_par, index_of_keys, lemma_positions_absent, occurs_in, HashIndex,
};
use crate::merge::{
    arrays_wf, cols_of, first_non_key, joint_keys, lemma_joint_keys, rows_in, same_key_types,
};
use vstd::prelude::*;

verus! {

/// The positions of a group, each paired with the probing row `p`.
pub open spec fn paired(p: int, group: Seq<u32>) -> Seq<(u32, u32)> {
    group.map_values(|q: u32| (p as u32, q))
}

/// For each of the first `hi` probing keys in turn, the key's position paired
/// with each position that the index holds under it.
pub open spec fn index_pairs(probe: Seq<Key>, index: Map<Key, Seq<u32>>, hi: int) -> Seq<
    (u32, u32),
>
    decreases hi,
{
    if hi <= 0 {
        Seq::empty()
    } else {
        index_pairs(probe, index, hi - 1) + paired(
            hi - 1,
            HashIndex::group_or_empty(index, probe[hi - 1]),
        )
    }
}

/// Two lists of positions read as a list of pairs.
pub open spec fn zipped(a: Seq<u32>, b: Seq<u32>) -> Seq<(u32, u32)> {
    Seq::new(a.len(), |i: int| (a[i], b[i]))
}

/// Probes a hash index with every key of a column, in order, and lists the
/// matches as pairs of probing position and indexed position.
pub fn join_probe(probe: &Vec<Key>, build_map: &HashIndex) -> (r: (Vec<u32>, Vec<u32>))
    requires
        build_map.wf(),
        probe.len() <= u32::MAX,
    ensures
        r.0.len() == r.1.len(),
        zipped(r.0@, r.1@) == index_pairs(probe@, build_map@, probe.len() as int),
{
    let mut from: Vec<u32> = Vec::new();
    let mut to: Vec<u32> = Vec::new();
    let mut p: usize = 0;
    assert(zipped(from@, to@) =~= index_pairs(probe@, build_map@, 0));
    while p < probe.len()
        invariant
            p <= probe.len() <= u32::MAX,
            build_map.wf(),
            from.len() == to.len(),
            zipped(from@, to@) == index_pairs(probe@, build_map@, p as int),
        decreases probe.len() - p,
    {
        let ghost before = zipped(from@, to@);
        match build_map.get(&probe[p]) {
            None => {
                assert(paired(p as int, Seq::<u32>::empty()) =~= Seq::empty());
                assert(before + Seq::<(u32, u32)>::empty() =~= before);
            },
            Some(group) => {
                let mut i: usize = 0;
                while i < group.len()
                    invariant
                        i <= group.len(),
                        p < probe.len() <= u32::MAX,
                        from.len() == to.len(),
                        zipped(from@, to@) == before + paired(
                            p as int,
                            group@.subrange(0, i as int),
                        ),
                    decreases group.len() - i,
                {
                    let ghost sofar = zipped(from@, to@);
                    from.push(p as u32);
                    to.push(group[i]);
                    assert(zipped(from@, to@) =~= sofar.push((p as u32, group[i as int])));
                    assert(paired(p as int, group@.subrange(0, i + 1)) =~= paired(
                        p as int,
                        group@.subrange(0, i as int),
                    ).push((p as u32, group[i as int])));
                    assert(zipped(from@, to@) =~= before + paired(
                        p as int,
                        group@.subrange(0, i + 1),
                    ));
                    i += 1;
                }
                assert(group@.subrange(0, group.len() as int) =~= group@);
            },
        }
        p += 1;
    }
    (from, to)
}

/// For each of the first `hi` probing rows in turn, the row paired with each
/// row of the build side that carries the same tuple of keys.
pub open spec fn join_pairs(probe: Seq<Seq<Key>>, build: Seq<Seq<Key>>, b: int, hi: int) -> Seq<
    (u32, u32),
>
    decreases hi,
{
    if hi <= 0 {
        Seq::empty()
    } else {
        join_pairs(probe, build, b, hi - 1) + paired(
            hi - 1,
            rows_with(build, row_tuple(probe, hi - 1), b),
        )
    }
}

/// Where keys stand for tuples on both sides, probing the index of the build
/// keys pairs each probing row with the build rows of the same tuple.
pub proof fn lemma_index_pairs_join(
    probe: Seq<Seq<Key>>,
    build: Seq<Seq<Key>>,
    pk: Seq<Key>,
    bk: Seq<Key>,
    hi: int,
)
    requires
        0 <= hi <= pk.len(),
        forall|p: int, q: int|
            0 <= p < pk.len() && 0 <= q < bk.len() ==> ((#[trigger] pk[p] == #[trigger] bk[q])
                <==> row_tuple(probe, p) == row_tuple(build, q)),
    ensures
        index_pairs(pk, index_of_keys(bk), hi) == join_pairs(probe, build, bk.len() as int, hi),
    decreases hi,
{
    if hi > 0 {
        lemma_index_pairs_join(probe, build, pk, bk, hi - 1);
        let p = hi - 1;
        let k = pk[p];
        let t = row_tuple(probe, p);
        assert forall|q: int| 0 <= q < bk.len() implies ((#[trigger] bk[q] == k) <==> row_tuple(
            build,
            q,
        ) == t) by {
            assert((pk[p] == bk[q]) <==> row_tuple(probe, p) == row_tuple(build, q));
        }
        lemma_positions_are_rows(bk, k, build, t, bk.len() as int);
        if !occurs_in(bk, k, 0, bk.len() as int) {
            lemma_positions_absent(bk, k, 0, bk.len() as int);
        }
    }
}

/// The inner join of two sides by their key columns: every pair of a row of
/// the first side and a row of the second that carry the same tuple of keys,
/// as two lists of positions of equal length.
///
/// The side with fewer rows is indexed and the other probes it, so the pairs
/// come in the order of the probing side's rows, and under one probing row in
/// the order of the indexed side's rows.
pub fn join_arrays(arrays1: &Vec<ColumnArray>, arrays2: &Vec<ColumnArray>) -> (r: Result<
    (Vec<u32>, Vec<u32>),
    TableError,
>)
    requires
        arrays_wf(arrays1@),
        arrays_wf(arrays2@),
    ensures
        r is Ok <==> arrays1.len() > 0 && same_key_types(arrays1@, arrays2@) && first_non_key(
            arrays1@,
            0,
        ) == arrays1.len() && rows_in(arrays1@) + rows_in(arrays2@) <= u32::MAX,
        r matches Ok(sides) ==> sides.0.len() == sides.1.len() && if rows_in(arrays1@) > rows_in(
            arrays2@,
        ) {
            zipped(sides.0@, sides.1@) == join_pairs(
                cols_of(arrays1@),
                cols_of(arrays2@),
                rows_in(arrays2@),
                rows_in(arrays1@),
            )
        } else {
            zipped(sides.1@, sides.0@) == join_pairs(
                cols_of(arrays2@),
                cols_of(arrays1@),
                rows_in(arrays1@),
                rows_in(arrays2@),
            )
        },
        r matches Err(e) ==> if arrays1.len() == 0 || !same_key_types(arrays1@, arrays2@) {
            e is KeyTypeMismatch
        } else if first_non_key(arrays1@, 0) < arrays1.len() {
            e == TableError::UnsupportedKeyType(arrays1[first_non_key(arrays1@, 0)].data_type)
        } else {
            e is Overflow
        },
{
    match joint_keys(arrays1, arrays2) {
        Err(e) => Err(e),
        Ok((k1, k2)) => {
            let ghost c1 = cols_of(arrays1@);
            let ghost c2 = cols_of(arrays2@);
            let ghost n1 = rows_in(arrays1@);
            let ghost n2 = rows_in(arrays2@);
            proof {
                assert forall|c: int| 0 <= c < c1.len() implies (#[trigger] c1[c]).len() == n1 by {
                    assert(arrays1[c]@.len() == arrays1[0]@.len());
                }
                assert forall|c: int| 0 <= c < c2.len() implies (#[trigger] c2[c]).len() == n2 by {
                    assert(arrays2[c]@.len() == arrays2[0]@.len());
                }
                assert forall|p: int, q: int| 0 <= p < k1.len() && 0 <= q < k2.len() implies ((
                #[trigger] k1@[p] == #[trigger] k2@[q]) <==> row_tuple(c1, p) == row_tuple(
                    c2,
                    q,
                )) by {
                    lemma_joint_keys(c1, c2, k1@, k2@, n1, n2, p, q);
                }
            }
            if k1.len() > k2.len() {
                let build_map = hashmap_primitive_to_idxs_par(&k2);
                let (probe_idx, build_idx) = join_probe(&k1, &build_map);
                proof {
                    lemma_index_pairs_join(c1, c2, k1@, k2@, n1);
                }
                Ok((probe_idx, build_idx))
            } else {
                let build_map = hashmap_primitive_to_idxs_par(&k1);
                let (probe_idx, build_idx) = join_probe(&k2, &build_map);
                proof {
                    assert forall|p: int, q: int|
                        0 <= p < k2.len() && 0 <= q < k1.len() implies ((#[trigger] k2@[p]
                        == #[trigger] k1@[q]) <==> row_tuple(c2, p) == row_tuple(c1, q)) by {
                        assert((k1@[q] == k2@[p]) <==> row_tuple(c1, q) == row_tuple(c2, p));
                    }
                    lemma_index_pairs_join(c2, c1, k2@, k1@, n2);
                }
                Ok((build_idx, probe_idx))
            }
        },
    }
}

/// What the rows with a tuple are: each lies before `hi` and carries the
/// tuple, and no row that carries it is missing.
pub proof fn lemma_rows_with_exact(cols: Seq<Seq<Key>>, t: Seq<Key>, hi: int)
    requires
        0 <= hi <= u32::MAX,
    ensures
        forall|i: int|
            0 <= i < rows_with(cols, t, hi).len() ==> (#[trigger] rows_with(cols, t, hi)[i]) < hi
                && row_tuple(cols, rows_with(cols, t, hi)[i] as int) == t,
        forall|q: int|
            0 <= q < hi && #[trigger] row_tuple(cols, q) == t ==> rows_with(cols, t, hi).contains(
                q as u32,
            ),
    decreases hi,
{
    if hi > 0 {
        lemma_rows_with_exact(cols, t, hi - 1);
        let rest = rows_with(cols, t, hi - 1);
        let all = rows_with(cols, t, hi);
        if row_tuple(cols, hi - 1) == t {
            assert(all[rest.len() as int] == (hi - 1) as u32);
        }
        assert forall|q: int| 0 <= q < hi && #[trigger] row_tuple(cols, q) == t implies all.contains(
            q as u32,
        ) by {
            if q < hi - 1 {
                let i = choose|i: int| 0 <= i < rest.len() && rest[i] == q as u32;
                assert(all[i] == q as u32);
            } else {
                assert(all[rest.len() as int] == q as u32);
            }
        }
    }
}

/// The join is exact: a pair of rows is listed exactly where the probing row
/// and the indexed row carry the same tuple of keys.
pub proof fn join_is_exact(
    probe: Seq<Seq<Key>>,
    build: Seq<Seq<Key>>,
    b: int,
    hi: int,
    p: int,
    q: int,
)
    requires
        0 <= hi <= u32::MAX,
        0 <= b <= u32::MAX,
        0 <= p <= u32::MAX,
        0 <= q <= u32::MAX,
    ensures
        join_pairs(probe, build, b, hi).contains((p as u32, q as u32)) <==> p < hi && q < b
            && row_tuple(build, q) == row_tuple(probe, p),
    decreases hi,
{
    if hi > 0 {
        join_is_exact(probe, build, b, hi - 1, p, q);
        let before = join_pairs(probe, build, b, hi - 1);
        let rows = rows_with(build, row_tuple(probe, hi - 1), b);
        let mine = paired(hi - 1, rows);
        let all = join_pairs(probe, build, b, hi);
        let pair = (p as u32, q as u32);
        lemma_rows_with_exact(build, row_tuple(probe, hi - 1), b);
        if before.contains(pair) {
            let i = choose|i: int| 0 <= i < before.len() && before[i] == pair;
            assert(all[i] == pair);
        }
        if mine.contains(pair) {
            let i = choose|i: int| 0 <= i < mine.len() && mine[i] == pair;
            assert(all[before.len() + i] == pair);
            assert(rows[i] == q as u32);
        }
        if all.contains(pair) {
            let i = choose|i: int| 0 <= i < all.len() && all[i] == pair;
            if i < before.len() {
                assert(before[i] == pair);
            } else {
                assert(mine[i - before.len()] == pair);
            }
        }
        if p == hi - 1 && q < b && row_tuple(build, q) == row_tuple(probe, p) {
            assert(rows.contains(q as u32));
            let i = choose|i: int| 0 <= i < rows.len() && rows[i] == q as u32;
            assert(mine[i] == pair);
        }
    }
}

} // verus!
