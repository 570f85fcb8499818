//! What holds of the relational operations, whatever the tables: group-by
//! covers the table and its parts are disjoint, an upsert of key-unique
//! tables is key-unique, and a delete, once done, deletes nothing more.

use crate::chunks::Row;
use crate::dataset::DatasetPart;
use crate::keys::{
    holds_key, key_columns, key_unique, keyed_as, row_key, survivors, unclaimed_by,
};
use crate::parts::{has_part, is_part_of, is_partition, part_key};
use crate::table::Table;
use vstd::multiset::Multiset;
use vstd::prelude::*;
use vstd::seq_lib::{lemma_multiset_commutative, to_multiset_build};

verus! {

/// The rows of a list of parts, part after part.
pub open spec fn all_rows(parts: Seq<DatasetPart>) -> Seq<Row>
    decreases parts.len(),
{
    if parts.len() == 0 {
        Seq::empty()
    } else {
        all_rows(parts.drop_last()) + parts.last().table.unwrap().rows()
    }
}

/// The sum of the row counts of a list of parts.
pub open spec fn total_rows(parts: Seq<DatasetPart>) -> nat
    decreases parts.len(),
{
    if parts.len() == 0 {
        0
    } else {
        total_rows(parts.drop_last()) + parts.last().table.unwrap().spec_num_rows()
    }
}

/// A value occurs among the rows that pass a test as often as among all the
/// rows where it passes the test, and not at all where it fails.
pub proof fn lemma_filter_count(s: Seq<Row>, pred: spec_fn(Row) -> bool, v: Row)
    ensures
        s.filter(pred).to_multiset().count(v) == if pred(v) {
            s.to_multiset().count(v)
        } else {
            0
        },
    decreases s.len(),
{
    reveal(Seq::filter);
    broadcast use vstd::multiset::group_multiset_axioms;

    if s.len() == 0 {
        assert(s.filter(pred) =~= Seq::<Row>::empty());
        assert(s.to_multiset() =~= Multiset::<Row>::empty()) by {
            s.to_multiset_ensures();
        }
        Seq::<Row>::empty().to_multiset_ensures();
    } else {
        let rest = s.drop_last();
        let x = s.last();
        lemma_filter_count(rest, pred, v);
        assert(s =~= rest.push(x));
        to_multiset_build(rest, x);
        if pred(x) {
            to_multiset_build(rest.filter(pred), x);
        }
    }
}

/// Over parts with distinct keys, a value occurs among the rows of the first
/// `n` parts as often as in the table where one of these parts has its key,
/// and not at all otherwise.
pub proof fn lemma_parts_count(
    parts: Seq<DatasetPart>,
    table: &Table,
    columns: Seq<String>,
    n: int,
    v: Row,
)
    requires
        is_partition(parts, table, columns),
        0 <= n <= parts.len(),
    ensures
        all_rows(parts.subrange(0, n)).to_multiset().count(v) == if has_part(
            parts.subrange(0, n),
            key_columns(table.fields@, columns),
            row_key(v, key_columns(table.fields@, columns)),
        ) {
            table.rows().to_multiset().count(v)
        } else {
            0
        },
    decreases n,
{
    broadcast use vstd::multiset::group_multiset_axioms;

    let cs = key_columns(table.fields@, columns);
    let upto = parts.subrange(0, n);
    if n == 0 {
        Seq::<Row>::empty().to_multiset_ensures();
        assert(all_rows(upto) =~= Seq::<Row>::empty());
        assert(all_rows(upto).to_multiset() =~= Multiset::<Row>::empty());
    } else {
        lemma_parts_count(parts, table, columns, n - 1, v);
        let before = parts.subrange(0, n - 1);
        assert(upto.drop_last() =~= before);
        assert(upto.last() == parts[n - 1]);
        assert(is_part_of(&parts[n - 1], table, columns));
        let mine = parts[n - 1].table.unwrap().rows();
        let k = part_key(&parts[n - 1], cs);
        lemma_multiset_commutative(all_rows(before), mine);
        lemma_filter_count(table.rows(), keyed_as(cs, k), v);
        if row_key(v, cs) == k {
            assert(has_part(upto, cs, row_key(v, cs))) by {
                assert(part_key(&upto[n - 1], cs) == row_key(v, cs));
            }
            if has_part(before, cs, row_key(v, cs)) {
                let g = choose|g: int|
                    0 <= g < before.len() && part_key(#[trigger] &before[g], cs) == row_key(v, cs);
                assert(before[g] == parts[g]);
                assert(part_key(&parts[g], cs) != part_key(&parts[n - 1], cs));
            }
        } else {
            if has_part(upto, cs, row_key(v, cs)) {
                let g = choose|g: int|
                    0 <= g < upto.len() && part_key(#[trigger] &upto[g], cs) == row_key(v, cs);
                assert(upto[g] == before[g]);
                assert(part_key(&before[g], cs) == row_key(v, cs));
            }
            if has_part(before, cs, row_key(v, cs)) {
                let g = choose|g: int|
                    0 <= g < before.len() && part_key(#[trigger] &before[g], cs) == row_key(v, cs);
                assert(upto[g] == before[g]);
                assert(part_key(&upto[g], cs) == row_key(v, cs));
            }
        }
    }
}

/// The parts have as many rows as their rows, laid end to end, are long.
pub proof fn lemma_total_rows(parts: Seq<DatasetPart>)
    ensures
        total_rows(parts) == all_rows(parts).len(),
    decreases parts.len(),
{
    if parts.len() > 0 {
        lemma_total_rows(parts.drop_last());
        crate::table::lemma_rows_len(parts.last().table.unwrap().chunks@);
    }
}

/// Group-by covers the table: the parts together hold the rows of the table,
/// each as often as the table does, and so as many rows as the table has.
pub proof fn groupby_covers(parts: Seq<DatasetPart>, table: &Table, columns: Seq<String>)
    requires
        is_partition(parts, table, columns),
    ensures
        all_rows(parts).to_multiset() == table.rows().to_multiset(),
        total_rows(parts) == table.spec_num_rows(),
{
    broadcast use vstd::multiset::group_multiset_axioms;

    let cs = key_columns(table.fields@, columns);
    let rows = table.rows();
    assert(parts.subrange(0, parts.len() as int) =~= parts);
    assert forall|v: Row| all_rows(parts).to_multiset().count(v) == rows.to_multiset().count(
        v,
    ) by {
        lemma_parts_count(parts, table, columns, parts.len() as int, v);
        rows.to_multiset_ensures();
        if rows.to_multiset().count(v) > 0 {
            assert(rows.contains(v));
            let p = choose|p: int| 0 <= p < rows.len() && rows[p] == v;
            assert(has_part(parts, cs, row_key(rows[p], cs)));
        }
    }
    assert(all_rows(parts).to_multiset() =~= rows.to_multiset());
    lemma_total_rows(parts);
    all_rows(parts).to_multiset_ensures();
    rows.to_multiset_ensures();
    crate::table::lemma_rows_len(table.chunks@);
}

/// The parts of a group-by are disjoint: the key of a row is the key of one
/// part only, so no row of the table is held by two parts.
pub proof fn groupby_disjoint(
    parts: Seq<DatasetPart>,
    table: &Table,
    columns: Seq<String>,
    p: int,
    g: int,
    h: int,
)
    requires
        is_partition(parts, table, columns),
        0 <= p < table.rows().len(),
        0 <= g < parts.len(),
        0 <= h < parts.len(),
        part_key(&parts[g], key_columns(table.fields@, columns)) == row_key(
            table.rows()[p],
            key_columns(table.fields@, columns),
        ),
        part_key(&parts[h], key_columns(table.fields@, columns)) == row_key(
            table.rows()[p],
            key_columns(table.fields@, columns),
        ),
    ensures
        g == h,
{
    let cs = key_columns(table.fields@, columns);
    if g < h {
        assert(part_key(&parts[g], cs) != part_key(&parts[h], cs));
    }
    if h < g {
        assert(part_key(&parts[h], cs) != part_key(&parts[g], cs));
    }
}

/// The rows that pass a test are key-unique where all the rows are, and each
/// of them is one of the rows and passes the test.
pub proof fn lemma_filter_unique(s: Seq<Row>, pred: spec_fn(Row) -> bool, cs: Seq<usize>)
    requires
        key_unique(s, cs),
    ensures
        key_unique(s.filter(pred), cs),
        forall|i: int|
            0 <= i < s.filter(pred).len() ==> pred(#[trigger] s.filter(pred)[i]) && holds_key(
                s,
                cs,
                row_key(s.filter(pred)[i], cs),
            ),
    decreases s.len(),
{
    reveal(Seq::filter);
    if s.len() > 0 {
        let rest = s.drop_last();
        let x = s.last();
        assert(key_unique(rest, cs)) by {
            assert forall|i: int, j: int| 0 <= i < j < rest.len() implies #[trigger] row_key(
                rest[i],
                cs,
            ) != #[trigger] row_key(rest[j], cs) by {
                assert(row_key(s[i], cs) != row_key(s[j], cs));
            }
        }
        lemma_filter_unique(rest, pred, cs);
        let f = s.filter(pred);
        let fr = rest.filter(pred);
        assert forall|i: int| 0 <= i < f.len() implies pred(#[trigger] f[i]) && holds_key(
            s,
            cs,
            row_key(f[i], cs),
        ) by {
            if i < fr.len() {
                assert(f[i] == fr[i]);
                assert(holds_key(rest, cs, row_key(fr[i], cs)));
                let q = choose|q: int|
                    0 <= q < rest.len() && #[trigger] row_key(rest[q], cs) == row_key(fr[i], cs);
                assert(row_key(s[q], cs) == row_key(f[i], cs));
            } else {
                assert(f[i] == x);
                assert(row_key(s[s.len() - 1], cs) == row_key(f[i], cs));
            }
        }
        assert forall|i: int, j: int| 0 <= i < j < f.len() implies #[trigger] row_key(f[i], cs)
            != #[trigger] row_key(f[j], cs) by {
            if j < fr.len() {
                assert(row_key(fr[i], cs) != row_key(fr[j], cs));
            } else {
                assert(f[j] == x);
                assert(f[i] == fr[i]);
                assert(holds_key(rest, cs, row_key(fr[i], cs)));
                let q = choose|q: int|
                    0 <= q < rest.len() && #[trigger] row_key(rest[q], cs) == row_key(fr[i], cs);
                assert(row_key(s[q], cs) != row_key(s[s.len() - 1], cs));
            }
        }
    }
}

/// An upsert of key-unique tables is key-unique: where no two rows of the
/// left side share a tuple of keys, and no two rows of the right side, no
/// two rows of the upsert do.
pub proof fn upsert_key_unique(left: Seq<Row>, right: Seq<Row>, cs: Seq<usize>)
    requires
        key_unique(left, cs),
        key_unique(right, cs),
    ensures
        key_unique(survivors(left, right, cs) + right, cs),
{
    let kept = survivors(left, right, cs);
    let all = kept + right;
    lemma_filter_unique(left, unclaimed_by(right, cs), cs);
    assert forall|i: int, j: int| 0 <= i < j < all.len() implies #[trigger] row_key(all[i], cs)
        != #[trigger] row_key(all[j], cs) by {
        if j < kept.len() {
            assert(row_key(kept[i], cs) != row_key(kept[j], cs));
        } else if i < kept.len() {
            assert(unclaimed_by(right, cs)(kept[i]));
            let q = j - kept.len();
            assert(all[j] == right[q]);
            if row_key(all[i], cs) == row_key(all[j], cs) {
                assert(row_key(right[q], cs) == row_key(kept[i], cs));
                assert(holds_key(right, cs, row_key(kept[i], cs)));
            }
        } else {
            assert(row_key(right[i - kept.len()], cs) != row_key(right[j - kept.len()], cs));
        }
    }
}

/// Rows that all pass a test pass it again unchanged.
pub proof fn lemma_filter_again(s: Seq<Row>, pred: spec_fn(Row) -> bool)
    ensures
        s.filter(pred).filter(pred) == s.filter(pred),
    decreases s.len(),
{
    reveal(Seq::filter);
    if s.len() > 0 {
        let rest = s.drop_last();
        lemma_filter_again(rest, pred);
        if pred(s.last()) {
            let f = rest.filter(pred).push(s.last());
            assert(f.drop_last() =~= rest.filter(pred));
        }
    }
}

/// Delete is idempotent: deleting by the same right side once more deletes
/// nothing.
pub proof fn delete_idempotent(left: Seq<Row>, right: Seq<Row>, cs: Seq<usize>)
    ensures
        survivors(survivors(left, right, cs), right, cs) == survivors(left, right, cs),
{
    lemma_filter_again(left, unclaimed_by(right, cs));
}

} // verus!
