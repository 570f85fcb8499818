//! Grouping a table by key columns into the parts of a dataset.

use crate::chunks::{chunk_take, Chunk, Row};
use crate::column::{all_below, column_keys, gather, Key};
use crate::groupby::{
    cols_view, groupby_keys, has_group, is_grouping, key_cols_wf, keys_in_range,
    lemma_grouping_count, row_tuple, rows_with,
};
use crate::dataset::{Dataset, DatasetPart, DatasetStorage};
use crate::labels::{key_label, key_to_string};
use crate::datatypes::{Field, TableError};
use crate::keyed::{
    chunks_keyed, copy_keys, entries_wf, flat_entries, has_merged, hashmaps_merge, is_merge,
    KeyedChunk,
};
use crate::keys::{
    first_missing, first_non_key_type, key_columns, key_types, keyed_as,
    lemma_first_missing_bounds, row_key, valid_positions,
};
use crate::merge::lemma_keys_in_range;
use crate::par::par_map_range;
use crate::table::{
    clone_fields, count_rows, fits, lemma_distinct_same, lemma_rows_len, lemma_rows_prefix,
    rows_of, same_fields, Table,
};
use vstd::prelude::*;

verus! {

/// The key columns `cs` of a chunk as sequences of keys.
pub open spec fn chunk_key_cols(chunk: &Chunk, cs: Seq<usize>) -> Seq<Seq<Key>> {
    Seq::new(cs.len(), |j: int| column_keys(chunk.columns[cs[j] as int]@))
}

/// Every row that carries a given tuple lies before `hi`.
pub proof fn lemma_rows_with_below(cols: Seq<Seq<Key>>, t: Seq<Key>, hi: int)
    requires
        0 <= hi <= u32::MAX,
    ensures
        all_below(rows_with(cols, t, hi), hi),
    decreases hi,
{
    if hi > 0 {
        lemma_rows_with_below(cols, t, hi - 1);
    }
}

/// Where the key columns list the keys of the rows, gathering the rows that
/// carry the tuple `t` keeps exactly the rows keyed `t`.
pub proof fn lemma_rows_with_filter(
    rows: Seq<Row>,
    cols: Seq<Seq<Key>>,
    cs: Seq<usize>,
    t: Seq<Key>,
    hi: int,
)
    requires
        0 <= hi <= rows.len() <= u32::MAX,
        forall|p: int| 0 <= p < rows.len() ==> #[trigger] row_tuple(cols, p) == row_key(rows[p], cs),
    ensures
        gather(rows, rows_with(cols, t, hi)) == rows.subrange(0, hi).filter(keyed_as(cs, t)),
    decreases hi,
{
    reveal(Seq::filter);
    if hi > 0 {
        lemma_rows_with_filter(rows, cols, cs, t, hi - 1);
        lemma_rows_with_below(cols, t, hi - 1);
        let p = hi - 1;
        let s = rows.subrange(0, hi);
        assert(s.drop_last() =~= rows.subrange(0, hi - 1));
        assert(s.last() == rows[p]);
        assert(row_tuple(cols, p) == row_key(rows[p], cs));
        let before = rows_with(cols, t, hi - 1);
        if row_tuple(cols, p) == t {
            assert(gather(rows, before.push(p as u32)) =~= gather(rows, before).push(rows[p]));
        }
    } else {
        assert(gather(rows, rows_with(cols, t, 0)) =~= Seq::<Row>::empty());
    }
}

/// Whether some keyed chunk is keyed `t`.
pub open spec fn has_keyed(out: Seq<KeyedChunk>, t: Seq<Key>) -> bool {
    exists|g: int| 0 <= g < out.len() && (#[trigger] out[g]).key@ == t
}

/// Whether `out` is the grouping of a chunk by the key columns `cs`: each
/// keyed chunk holds, in order, the rows of the chunk that carry its key, and
/// there is at least one; no two share a key; and every row's key has a
/// keyed chunk.
pub open spec fn is_keyed_grouping(out: Seq<KeyedChunk>, chunk: &Chunk, cs: Seq<usize>) -> bool {
    &&& forall|g: int|
        0 <= g < out.len() ==> {
            &&& (#[trigger] out[g]).key@.len() == cs.len()
            &&& keys_in_range(out[g].key@)
            &&& out[g].chunk.wf()
            &&& out[g].chunk.columns.len() == chunk.columns.len()
            &&& forall|c: int|
                0 <= c < chunk.columns.len() ==> (#[trigger] out[g].chunk.columns[c]).data_type
                    == chunk.columns[c].data_type
            &&& out[g].chunk.rows() == chunk.rows().filter(keyed_as(cs, out[g].key@))
            &&& out[g].chunk.rows().len() > 0
        }
    &&& forall|g: int, h: int|
        0 <= g < h < out.len() ==> (#[trigger] out[g]).key@ != (#[trigger] out[h]).key@
    &&& forall|p: int|
        0 <= p < chunk.rows().len() ==> has_keyed(out, #[trigger] row_key(chunk.rows()[p], cs))
    &&& out.len() <= chunk.spec_len()
}

/// Groups the rows of a chunk by the tuple of keys they carry in the columns
/// `cs`: one sub-chunk per tuple, the rows in their order.
pub fn chunk_groupby(chunk: &Chunk, cs: &Vec<usize>) -> (out: Vec<KeyedChunk>)
    requires
        chunk.wf(),
        chunk.spec_len() <= u32::MAX,
        valid_positions(cs@, chunk.columns.len() as int),
        forall|j: int|
            0 <= j < cs.len() ==> (#[trigger] chunk.columns[cs[j] as int]).data_type.is_key_type(),
    ensures
        is_keyed_grouping(out@, chunk, cs@),
{
    let n = chunk.len();
    let mut cols: Vec<Vec<Key>> = Vec::new();
    let mut j: usize = 0;
    while j < cs.len()
        invariant
            j <= cs.len(),
            chunk.wf(),
            n == chunk.spec_len(),
            valid_positions(cs@, chunk.columns.len() as int),
            forall|j: int|
                0 <= j < cs.len() ==> (#[trigger] chunk.columns[cs[j] as int]).data_type.is_key_type(),
            cols.len() == j,
            forall|i: int|
                0 <= i < j ==> (#[trigger] cols[i])@ == column_keys(chunk.columns[cs[i] as int]@),
            key_cols_wf(cols@, n as int),
        decreases cs.len() - j,
    {
        proof {
            assert(chunk.columns[cs[j as int] as int].data_type.is_key_type());
            lemma_keys_in_range(&chunk.columns[cs[j as int] as int]);
        }
        cols.push(chunk.columns[cs[j]].keys());
        j += 1;
    }
    let groups = groupby_keys(&cols, n);
    let ghost cv = cols_view(cols@);
    let ghost rows = chunk.rows();
    proof {
        assert(cv =~= chunk_key_cols(chunk, cs@));
        lemma_grouping_count(groups@, cv, n as int);
        assert forall|p: int| 0 <= p < rows.len() implies #[trigger] row_tuple(cv, p) == row_key(
            rows[p],
            cs@,
        ) by {
            assert(row_tuple(cv, p) =~= row_key(rows[p], cs@));
        }
    }
    let mut out: Vec<KeyedChunk> = Vec::new();
    let mut g: usize = 0;
    while g < groups.len()
        invariant
            g <= groups.len(),
            chunk.wf(),
            n == chunk.spec_len(),
            n <= u32::MAX,
            rows == chunk.rows(),
            cv.len() == cs.len(),
            key_cols_wf(cols@, n as int),
            cv == cols_view(cols@),
            is_grouping(groups@, cv, n as int),
            forall|p: int|
                0 <= p < rows.len() ==> #[trigger] row_tuple(cv, p) == row_key(rows[p], cs@),
            out.len() == g,
            forall|h: int|
                0 <= h < g ==> {
                    &&& (#[trigger] out[h]).key@ == groups[h].key@
                    &&& out[h].key@.len() == cs.len()
                    &&& keys_in_range(out[h].key@)
                    &&& out[h].chunk.wf()
                    &&& out[h].chunk.columns.len() == chunk.columns.len()
                    &&& forall|c: int|
                        0 <= c < chunk.columns.len() ==> (
                        #[trigger] out[h].chunk.columns[c]).data_type
                            == chunk.columns[c].data_type
                    &&& out[h].chunk.rows() == rows.filter(keyed_as(cs@, out[h].key@))
                    &&& out[h].chunk.rows().len() > 0
                },
        decreases groups.len() - g,
    {
        let group = &groups[g];
        proof {
            lemma_rows_with_below(cv, group.key@, n as int);
            lemma_rows_with_filter(rows, cv, cs@, group.key@, n as int);
            assert(rows.subrange(0, n as int) =~= rows);
            let first = group.rows[0] as int;
            assert(group.key@ == row_tuple(cv, first));
            assert(group.key@.len() == cs.len());
            assert forall|j: int| 0 <= j < group.key@.len() implies crate::groupby::key_in_range(
                #[trigger] group.key@[j],
            ) by {
                assert(cv[j] == cols[j]@);
                assert(keys_in_range(cols[j]@));
                assert(group.key@[j] == cols[j]@[first]);
            }
        }
        let key = copy_keys(&group.key);
        match chunk_take(chunk, &group.rows) {
            Ok(sub) => {
                proof {
                    if chunk.columns.len() == 0 {
                        assert(false);
                    }
                    assert(sub.rows().len() == group.rows@.len());
                }
                out.push(KeyedChunk { key, chunk: sub });
            },
            Err(_) => {
                assert(false);
            },
        }
        g += 1;
    }
    proof {
        assert forall|p: int| 0 <= p < rows.len() implies has_keyed(
            out@,
            #[trigger] row_key(rows[p], cs@),
        ) by {
            assert(has_group(groups@, row_tuple(cv, p)));
            let h = choose|h: int|
                0 <= h < groups.len() && (#[trigger] groups[h]).key@ == row_tuple(cv, p);
            assert(out[h].key@ == row_key(rows[p], cs@));
        }
        assert forall|a: int, b: int| 0 <= a < b < out.len() implies (#[trigger] out[a]).key@ != (
        #[trigger] out[b]).key@ by {
            assert(groups[a].key@ != groups[b].key@);
        }
    }
    out
}

/// The rows of each chunk of a list.
pub open spec fn chunk_rows(chunks: Seq<Chunk>) -> Seq<Seq<Row>> {
    chunks.map_values(|c: Chunk| c.rows())
}

/// For each of the first `hi` chunks that has rows keyed `t`, those rows.
pub open spec fn pieces(chunks: Seq<Chunk>, cs: Seq<usize>, t: Seq<Key>, hi: int) -> Seq<Seq<Row>>
    decreases hi,
{
    if hi <= 0 {
        Seq::empty()
    } else {
        let rest = pieces(chunks, cs, t, hi - 1);
        let mine = chunks[hi - 1].rows().filter(keyed_as(cs, t));
        if mine.len() > 0 {
            rest.push(mine)
        } else {
            rest
        }
    }
}

/// Lists of rows laid end to end.
pub open spec fn joined(lists: Seq<Seq<Row>>) -> Seq<Row>
    decreases lists.len(),
{
    if lists.len() == 0 {
        Seq::empty()
    } else {
        joined(lists.drop_last()) + lists.last()
    }
}

/// The rows of a list of chunks are the rows of its chunks laid end to end.
pub proof fn lemma_rows_joined(chunks: Seq<Chunk>)
    ensures
        rows_of(chunks) == joined(chunk_rows(chunks)),
    decreases chunks.len(),
{
    if chunks.len() > 0 {
        lemma_rows_joined(chunks.drop_last());
        assert(chunk_rows(chunks).drop_last() =~= chunk_rows(chunks.drop_last()));
    }
}

/// The pieces keyed `t`, laid end to end, are the rows keyed `t`.
pub proof fn lemma_pieces_joined(chunks: Seq<Chunk>, cs: Seq<usize>, t: Seq<Key>, hi: int)
    requires
        0 <= hi <= chunks.len(),
    ensures
        joined(pieces(chunks, cs, t, hi)) == rows_of(chunks.subrange(0, hi)).filter(
            keyed_as(cs, t),
        ),
    decreases hi,
{
    reveal(Seq::filter);
    if hi > 0 {
        lemma_pieces_joined(chunks, cs, t, hi - 1);
        lemma_rows_prefix(chunks, hi - 1);
        let before = rows_of(chunks.subrange(0, hi - 1));
        let mine = chunks[hi - 1].rows();
        Seq::filter_distributes_over_add(before, mine, keyed_as(cs, t));
        let rest = pieces(chunks, cs, t, hi - 1);
        let kept = mine.filter(keyed_as(cs, t));
        if kept.len() > 0 {
            assert(rest.push(kept).drop_last() =~= rest);
        } else {
            assert(kept =~= Seq::<Row>::empty());
            assert(before.filter(keyed_as(cs, t)) + kept =~= before.filter(keyed_as(cs, t)));
        }
    } else {
        assert(chunks.subrange(0, 0) =~= Seq::<Chunk>::empty());
    }
}

/// The chunks keyed `t` among the first `hi` entries of a list do not depend
/// on what follows those entries.
pub proof fn lemma_chunks_keyed_prefix(a: Seq<KeyedChunk>, b: Seq<KeyedChunk>, t: Seq<Key>, hi: int)
    requires
        0 <= hi <= a.len(),
    ensures
        chunks_keyed(a + b, t, hi) == chunks_keyed(a, t, hi),
    decreases hi,
{
    if hi > 0 {
        lemma_chunks_keyed_prefix(a, b, t, hi - 1);
        assert((a + b)[hi - 1] == a[hi - 1]);
    }
}

/// The chunks keyed `t` of two lists of entries laid end to end.
pub proof fn lemma_chunks_keyed_concat(a: Seq<KeyedChunk>, b: Seq<KeyedChunk>, t: Seq<Key>, hi: int)
    requires
        0 <= hi <= b.len(),
    ensures
        chunks_keyed(a + b, t, a.len() + hi) == chunks_keyed(a, t, a.len() as int) + chunks_keyed(
            b,
            t,
            hi,
        ),
    decreases hi,
{
    let left = chunks_keyed(a, t, a.len() as int);
    if hi > 0 {
        lemma_chunks_keyed_concat(a, b, t, hi - 1);
        assert((a + b)[a.len() + hi - 1] == b[hi - 1]);
        let rest = chunks_keyed(b, t, hi - 1);
        if b[hi - 1].key@ == t {
            assert((left + rest).push(b[hi - 1].chunk) =~= left + rest.push(b[hi - 1].chunk));
        }
    } else {
        lemma_chunks_keyed_prefix(a, b, t, a.len() as int);
        assert(left + Seq::<Chunk>::empty() =~= left);
    }
}

/// Among entries with distinct keys, the chunks keyed `t` of the first `hi`
/// are the chunk of the one entry keyed `t`, or none.
pub proof fn lemma_chunks_keyed_one(entries: Seq<KeyedChunk>, t: Seq<Key>, g: int, hi: int)
    requires
        0 <= hi <= entries.len(),
        0 <= g < entries.len(),
        entries[g].key@ == t,
        forall|a: int, b: int|
            0 <= a < b < entries.len() ==> (#[trigger] entries[a]).key@ != (
            #[trigger] entries[b]).key@,
    ensures
        chunks_keyed(entries, t, hi) == if g < hi {
            seq![entries[g].chunk]
        } else {
            Seq::<Chunk>::empty()
        },
    decreases hi,
{
    if hi > 0 {
        lemma_chunks_keyed_one(entries, t, g, hi - 1);
        if hi - 1 == g {
            assert(Seq::<Chunk>::empty().push(entries[g].chunk) =~= seq![entries[g].chunk]);
        } else if hi - 1 < g {
            assert(entries[hi - 1].key@ != entries[g].key@);
        } else {
            assert(entries[g].key@ != entries[hi - 1].key@);
        }
    }
}

/// Whether map `i` is the grouping of chunk `i`, for each of the first `n`
/// chunks.
pub open spec fn maps_group(
    maps: Seq<Vec<KeyedChunk>>,
    chunks: Seq<Chunk>,
    cs: Seq<usize>,
    n: int,
) -> bool {
    forall|i: int| 0 <= i < n ==> is_keyed_grouping((#[trigger] maps[i])@, &chunks[i], cs)
}

/// Where each map is the grouping of its chunk, the chunks gathered under
/// the key `t` have, chunk by chunk, the rows of the pieces keyed `t`; every
/// entry has a key of the width of `cs`, in range, and a chunk of the
/// columns of its chunk; and there are no more entries than rows.
pub proof fn lemma_merged_pieces(
    maps: Seq<Vec<KeyedChunk>>,
    chunks: Seq<Chunk>,
    cs: Seq<usize>,
    t: Seq<Key>,
    n: int,
)
    requires
        0 <= n <= maps.len(),
        n <= chunks.len(),
        maps_group(maps, chunks, cs, n),
    ensures
        chunk_rows(
            chunks_keyed(
                flat_entries(maps.subrange(0, n)),
                t,
                flat_entries(maps.subrange(0, n)).len() as int,
            ),
        ) == pieces(chunks, cs, t, n),
        flat_entries(maps.subrange(0, n)).len() <= count_rows(chunks.subrange(0, n)),
        entries_wf(flat_entries(maps.subrange(0, n)), cs.len() as int),
    decreases n,
{
    if n == 0 {
        assert(maps.subrange(0, 0) =~= Seq::<Vec<KeyedChunk>>::empty());
        assert(chunks.subrange(0, 0) =~= Seq::<Chunk>::empty());
        assert(chunk_rows(Seq::<Chunk>::empty()) =~= Seq::<Seq<Row>>::empty());
    } else {
        lemma_merged_pieces(maps, chunks, cs, t, n - 1);
        lemma_rows_prefix(chunks, n - 1);
        let a = flat_entries(maps.subrange(0, n - 1));
        let b = maps[n - 1]@;
        let chunk = chunks[n - 1];
        assert(maps.subrange(0, n).drop_last() =~= maps.subrange(0, n - 1));
        assert(maps.subrange(0, n).last() == maps[n - 1]);
        assert(flat_entries(maps.subrange(0, n)) == a + b);
        assert(is_keyed_grouping(b, &chunk, cs));
        lemma_chunks_keyed_concat(a, b, t, b.len() as int);
        let mine = chunk.rows().filter(keyed_as(cs, t));
        let left = chunks_keyed(a, t, a.len() as int);
        let right = chunks_keyed(b, t, b.len() as int);
        assert(chunk_rows(left + right) =~= chunk_rows(left) + chunk_rows(right));
        if has_keyed(b, t) {
            let g = choose|g: int| 0 <= g < b.len() && (#[trigger] b[g]).key@ == t;
            lemma_chunks_keyed_one(b, t, g, b.len() as int);
            assert(b[g].chunk.rows() == mine);
            assert(chunk_rows(seq![b[g].chunk]) =~= seq![mine]);
            assert(chunk_rows(left) + seq![mine] =~= chunk_rows(left).push(mine));
        } else {
            crate::keyed::lemma_chunks_keyed_none(b, t, b.len() as int);
            assert(chunk_rows(Seq::<Chunk>::empty()) =~= Seq::<Seq<Row>>::empty());
            assert(chunk_rows(left) + Seq::<Seq<Row>>::empty() =~= chunk_rows(left));
            if mine.len() > 0 {
                chunk.rows().lemma_filter_pred(keyed_as(cs, t), 0);
                chunk.rows().lemma_filter_contains_rev(keyed_as(cs, t), mine[0]);
                let p = choose|p: int| 0 <= p < chunk.rows().len() && chunk.rows()[p] == mine[0];
                assert(has_keyed(b, row_key(chunk.rows()[p], cs)));
            }
        }
        assert forall|r: int| 0 <= r < (a + b).len() implies (#[trigger] (a + b)[r]).key@.len()
            == cs.len() && keys_in_range((a + b)[r].key@) by {
            if r < a.len() {
                assert((a + b)[r] == a[r]);
            } else {
                assert((a + b)[r] == b[r - a.len()]);
            }
        }
    }
}

/// Where each map is the grouping of its chunk and the chunks fit a field
/// list, the chunk of every entry fits it.
pub proof fn lemma_entries_fit(
    maps: Seq<Vec<KeyedChunk>>,
    chunks: Seq<Chunk>,
    cs: Seq<usize>,
    fields: Seq<Field>,
    n: int,
)
    requires
        0 <= n <= maps.len(),
        n <= chunks.len(),
        maps_group(maps, chunks, cs, n),
        forall|i: int| 0 <= i < n ==> fits(fields, #[trigger] &chunks[i]),
    ensures
        forall|r: int|
            0 <= r < flat_entries(maps.subrange(0, n)).len() ==> fits(
                fields,
                &(#[trigger] flat_entries(maps.subrange(0, n))[r]).chunk,
            ),
    decreases n,
{
    if n == 0 {
        assert(maps.subrange(0, 0) =~= Seq::<Vec<KeyedChunk>>::empty());
    } else {
        lemma_entries_fit(maps, chunks, cs, fields, n - 1);
        let a = flat_entries(maps.subrange(0, n - 1));
        let b = maps[n - 1]@;
        assert(maps.subrange(0, n).drop_last() =~= maps.subrange(0, n - 1));
        assert(maps.subrange(0, n).last() == maps[n - 1]);
        assert(is_keyed_grouping(b, &chunks[n - 1], cs));
        assert(fits(fields, &chunks[n - 1]));
        assert forall|r: int| 0 <= r < (a + b).len() implies fits(
            fields,
            &(#[trigger] (a + b)[r]).chunk,
        ) by {
            if r < a.len() {
                assert((a + b)[r] == a[r]);
            } else {
                let e = b[r - a.len()];
                assert((a + b)[r] == e);
                assert forall|c: int| 0 <= c < fields.len() implies (
                #[trigger] e.chunk.columns[c]).data_type == fields[c].data_type by {
                    assert(chunks[n - 1].columns[c].data_type == fields[c].data_type);
                }
            }
        }
    }
}

/// Every chunk gathered under a key is the chunk of an entry.
pub proof fn lemma_chunks_keyed_fit(
    entries: Seq<KeyedChunk>,
    t: Seq<Key>,
    hi: int,
    fields: Seq<Field>,
)
    requires
        0 <= hi <= entries.len(),
        forall|r: int| 0 <= r < entries.len() ==> fits(fields, &(#[trigger] entries[r]).chunk),
    ensures
        forall|i: int|
            0 <= i < chunks_keyed(entries, t, hi).len() ==> fits(
                fields,
                #[trigger] &chunks_keyed(entries, t, hi)[i],
            ),
    decreases hi,
{
    if hi > 0 {
        lemma_chunks_keyed_fit(entries, t, hi - 1, fields);
        assert(fits(fields, &entries[hi - 1].chunk));
        let rest = chunks_keyed(entries, t, hi - 1);
        let all = chunks_keyed(entries, t, hi);
        assert forall|i: int| 0 <= i < all.len() implies fits(fields, #[trigger] &all[i]) by {
            if i < rest.len() {
                assert(all[i] == rest[i]);
                assert(fits(fields, &rest[i]));
            } else {
                assert(all[i] == entries[hi - 1].chunk);
            }
        }
    }
}

/// The tuple of keys of a part: that of the first row of its table.
pub open spec fn part_key(part: &DatasetPart, cs: Seq<usize>) -> Seq<Key> {
    row_key(part.table.unwrap().rows()[0], cs)
}

/// Whether some part is keyed `t`.
pub open spec fn has_part(parts: Seq<DatasetPart>, cs: Seq<usize>, t: Seq<Key>) -> bool {
    exists|g: int| 0 <= g < parts.len() && part_key(#[trigger] &parts[g], cs) == t
}

/// Whether a part is the group of the rows of `table` that carry one tuple
/// of keys in the columns that `columns` names: its table has the fields of
/// `table` and, in order, exactly the rows that carry the tuple, one chunk
/// for each chunk of `table` that has such rows; its filters label each key
/// column with the key; and it has no path.
pub open spec fn is_part_of(part: &DatasetPart, table: &Table, columns: Seq<String>) -> bool {
    let cs = key_columns(table.fields@, columns);
    &&& part.wf()
    &&& part.path is None
    &&& part.table matches Some(t) && {
        &&& same_fields(t.fields@, table.fields@)
        &&& t.rows().len() > 0
        &&& t.rows() == table.rows().filter(keyed_as(cs, row_key(t.rows()[0], cs)))
        &&& chunk_rows(t.chunks@) == pieces(
            table.chunks@,
            cs,
            row_key(t.rows()[0], cs),
            table.chunks.len() as int,
        )
    }
    &&& part.filters matches Some(f) && {
        &&& f.len() == columns.len()
        &&& forall|j: int|
            0 <= j < columns.len() ==> (#[trigger] f[j]).0@ == columns[j]@ && f[j].1@ == key_label(
                part_key(part, cs)[j],
            )
    }
}

/// Whether `parts` is the partition of `table` by the columns that
/// `columns` names: each part is the group of one tuple of keys, no two
/// parts have the same tuple, and every row's tuple has a part.
pub open spec fn is_partition(parts: Seq<DatasetPart>, table: &Table, columns: Seq<String>) -> bool {
    let cs = key_columns(table.fields@, columns);
    &&& forall|g: int| 0 <= g < parts.len() ==> is_part_of(#[trigger] &parts[g], table, columns)
    &&& forall|g: int, h: int|
        0 <= g < h < parts.len() ==> part_key(#[trigger] &parts[g], cs) != part_key(
            #[trigger] &parts[h],
            cs,
        )
    &&& forall|p: int|
        0 <= p < table.rows().len() ==> has_part(parts, cs, #[trigger] row_key(table.rows()[p], cs))
}

impl Table {
    /// Whether the table can be grouped by the columns that `columns` names:
    /// every name is a field, every key column is of an integer type, and 32
    /// bits can number the rows.
    pub open spec fn can_group(&self, columns: Seq<String>) -> bool {
        &&& first_missing(self.fields@, columns, 0) == columns.len()
        &&& first_non_key_type(key_types(self.fields@, key_columns(self.fields@, columns)), 0)
            == columns.len()
        &&& self.spec_num_rows() <= u32::MAX
    }

    /// Why the table cannot be grouped by `columns`: the first of the
    /// conditions of [`Table::can_group`] that fails.
    pub open spec fn group_error(&self, columns: Seq<String>) -> TableError {
        let types = key_types(self.fields@, key_columns(self.fields@, columns));
        if first_missing(self.fields@, columns, 0) < columns.len() {
            TableError::ColumnNotFound(columns[first_missing(self.fields@, columns, 0)])
        } else if first_non_key_type(types, 0) < columns.len() {
            TableError::UnsupportedKeyType(types[first_non_key_type(types, 0)])
        } else {
            TableError::Overflow
        }
    }

    /// Checks that every selected field is of an integer type.
    pub fn check_key_types(&self, cs: &Vec<usize>) -> (r: Result<(), TableError>)
        requires
            valid_positions(cs@, self.fields.len() as int),
        ensures
            r is Ok <==> first_non_key_type(key_types(self.fields@, cs@), 0) == cs.len(),
            r is Ok ==> forall|j: int|
                0 <= j < cs.len() ==> (#[trigger] self.fields[cs[j] as int]).data_type.is_key_type(),
            r matches Err(e) ==> first_non_key_type(key_types(self.fields@, cs@), 0) < cs.len()
                && e == TableError::UnsupportedKeyType(
                key_types(self.fields@, cs@)[first_non_key_type(key_types(self.fields@, cs@), 0)],
            ),
    {
        let ghost types = key_types(self.fields@, cs@);
        let mut j: usize = 0;
        while j < cs.len()
            invariant
                j <= cs.len(),
                types == key_types(self.fields@, cs@),
                valid_positions(cs@, self.fields.len() as int),
                first_non_key_type(types, 0) == first_non_key_type(types, j as int),
                forall|i: int|
                    0 <= i < j ==> (#[trigger] self.fields[cs[i] as int]).data_type.is_key_type(),
            decreases cs.len() - j,
        {
            if !self.fields[cs[j]].data_type.key_type() {
                return Err(TableError::UnsupportedKeyType(self.fields[cs[j]].data_type));
            }
            j += 1;
        }
        Ok(())
    }

    /// Groups the rows by the tuple of keys they carry in the columns that
    /// `columns` names: one part per tuple, holding the rows that carry it in
    /// their order, one chunk for each chunk of the table that has such
    /// rows, with filters that label each key column with the key.
    ///
    /// Each chunk is grouped on its own, side by side with the others, and
    /// the groups of the chunks are then merged by key. Refused where a name
    /// is not a field, where a key column is not of an integer type, and
    /// where the table has more rows than 32 bits can number.
    pub fn groupby(&self, columns: &Vec<String>) -> (r: Result<Vec<DatasetPart>, TableError>)
        requires
            self.wf(),
        ensures
            r is Ok <==> self.can_group(columns@),
            r matches Ok(parts) ==> is_partition(parts@, self, columns@),
            r matches Err(e) ==> e == self.group_error(columns@),
    {
        let cs = match self.key_positions(columns) {
            Err(e) => {
                proof {
                    lemma_first_missing_bounds(self.fields@, columns@, 0);
                }
                return Err(e);
            },
            Ok(cs) => cs,
        };
        match self.check_key_types(&cs) {
            Err(e) => {
                return Err(e);
            },
            Ok(()) => {},
        }
        let n = self.num_rows();
        if n > u32::MAX as usize {
            return Err(TableError::Overflow);
        }
        proof {
            assert forall|i: int| 0 <= i < self.chunks.len() implies (
            #[trigger] self.chunks[i]).spec_len() <= u32::MAX by {
                lemma_rows_prefix(self.chunks@, i);
            }
        }
        let group = (|i: usize| -> (out: Vec<KeyedChunk>)
            requires
                self.chunks.len() > i,
            ensures
                is_keyed_grouping(out@, &self.chunks[i as int], cs@),
            {
                proof {
                    assert(fits(self.fields@, &self.chunks[i as int]));
                    assert forall|j: int| 0 <= j < cs.len() implies (
                    #[trigger] self.chunks[i as int].columns[cs[j] as int]).data_type.is_key_type() by {
                        assert(self.fields[cs[j] as int].data_type.is_key_type());
                    }
                }
                chunk_groupby(&self.chunks[i], &cs)
            });
        let maps = par_map_range(self.chunks.len(), group);
        let ghost entries = flat_entries(maps@);
        proof {
            assert(maps_group(maps@, self.chunks@, cs@, maps.len() as int));
            assert(maps@.subrange(0, maps.len() as int) =~= maps@);
            assert(self.chunks@.subrange(0, self.chunks.len() as int) =~= self.chunks@);
            lemma_merged_pieces(maps@, self.chunks@, cs@, Seq::empty(), maps.len() as int);
            lemma_entries_fit(maps@, self.chunks@, cs@, self.fields@, maps.len() as int);
        }
        let mut merged = hashmaps_merge(maps, cs.len());
        let mut parts: Vec<DatasetPart> = Vec::new();
        let mut m: usize = 0;
        let ghost merged0 = merged@;
        let ghost rows = self.rows();
        while m < merged.len()
            invariant
                m <= merged.len(),
                self.wf(),
                rows == self.rows(),
                n == self.spec_num_rows(),
                cs@ == key_columns(self.fields@, columns@),
                merged.len() == merged0.len(),
                forall|k: int| m <= k < merged.len() ==> #[trigger] merged[k] == merged0[k],
                is_merge(merged0, entries),
                entries.len() == flat_entries(maps@).len(),
                entries == flat_entries(maps@),
                maps.len() == self.chunks.len(),
                maps_group(maps@, self.chunks@, cs@, maps.len() as int),
                entries_wf(entries, cs.len() as int),
                forall|r: int| 0 <= r < entries.len() ==> fits(
                    self.fields@,
                    &(#[trigger] entries[r]).chunk,
                ),
                parts.len() == m,
                forall|g: int|
                    0 <= g < m ==> is_part_of(#[trigger] &parts[g], self, columns@) && part_key(
                        &parts[g],
                        cs@,
                    ) == merged0[g].key@,
            decreases merged.len() - m,
        {
            let ghost t = merged0[m as int].key@;
            let key = copy_keys(&merged[m].key);
            let mut chunks: Vec<Chunk> = Vec::new();
            std::mem::swap(&mut merged[m].chunks, &mut chunks);
            let fields = clone_fields(&self.fields);
            proof {
                assert(chunks@ == chunks_keyed(entries, t, entries.len() as int));
                assert(maps@.subrange(0, maps.len() as int) =~= maps@);
                assert(self.chunks@.subrange(0, self.chunks.len() as int) =~= self.chunks@);
                lemma_merged_pieces(maps@, self.chunks@, cs@, t, maps.len() as int);
                lemma_pieces_joined(self.chunks@, cs@, t, self.chunks.len() as int);
                lemma_rows_joined(chunks@);
                lemma_chunks_keyed_fit(entries, t, entries.len() as int, self.fields@);
                lemma_distinct_same(self.fields@, fields@);
                lemma_rows_len(chunks@);
                lemma_rows_len(self.chunks@);
                rows.lemma_filter_len(keyed_as(cs@, t));
                assert forall|i: int| 0 <= i < chunks.len() implies fits(
                    fields@,
                    #[trigger] &chunks[i],
                ) by {
                    assert(fits(self.fields@, &chunks[i]));
                    assert forall|c: int| 0 <= c < fields.len() implies (
                    #[trigger] chunks[i].columns[c]).data_type == fields[c].data_type by {
                        assert(self.fields[c].same(&fields[c]));
                    }
                }
                // the group is not empty, and its first row carries the key
                let first = chunks_keyed(entries, t, entries.len() as int)[0];
                assert(chunk_rows(chunks@)[0] == first.rows());
                lemma_pieces_nonempty(self.chunks@, cs@, t, self.chunks.len() as int);
                assert(rows_of(chunks@).len() > 0) by {
                    lemma_joined_nonempty(chunk_rows(chunks@));
                }
                rows.lemma_filter_pred(keyed_as(cs@, t), 0);
            }
            let table = Table { fields, chunks };
            let mut filters: Vec<(String, String)> = Vec::new();
            let mut j: usize = 0;
            while j < columns.len()
                invariant
                    j <= columns.len(),
                    key.len() == columns.len(),
                    filters.len() == j,
                    forall|i: int|
                        0 <= i < j ==> (#[trigger] filters[i]).0@ == columns[i]@ && filters[i].1@
                            == key_label(key[i]),
                decreases columns.len() - j,
            {
                filters.push((columns[j].clone(), key_to_string(&key[j])));
                j += 1;
            }
            let part = DatasetPart::new(Some(table), Some(filters), None);
            parts.push(part);
            m += 1;
        }
        proof {
            assert forall|g: int, h: int| 0 <= g < h < parts.len() implies part_key(
                #[trigger] &parts[g],
                cs@,
            ) != part_key(#[trigger] &parts[h], cs@) by {
                assert(merged0[g].key@ != merged0[h].key@);
            }
            assert forall|p: int| 0 <= p < rows.len() implies has_part(
                parts@,
                cs@,
                #[trigger] row_key(rows[p], cs@),
            ) by {
                lemma_row_has_entry(maps@, self.chunks@, cs@, maps.len() as int, p);
                let r = choose|r: int|
                    0 <= r < entries.len() && (#[trigger] entries[r]).key@ == row_key(rows[p], cs@);
                assert(has_merged(merged0, entries[r].key@));
                let k = choose|k: int|
                    0 <= k < merged0.len() && (#[trigger] merged0[k]).key@ == entries[r].key@;
                assert(part_key(&parts[k], cs@) == row_key(rows[p], cs@));
            }
        }
        Ok(parts)
    }
}

/// Pieces are never empty.
pub proof fn lemma_pieces_nonempty(chunks: Seq<Chunk>, cs: Seq<usize>, t: Seq<Key>, hi: int)
    requires
        0 <= hi <= chunks.len(),
    ensures
        forall|i: int|
            0 <= i < pieces(chunks, cs, t, hi).len() ==> (#[trigger] pieces(chunks, cs, t, hi)[i]).len()
                > 0,
    decreases hi,
{
    if hi > 0 {
        lemma_pieces_nonempty(chunks, cs, t, hi - 1);
        let rest = pieces(chunks, cs, t, hi - 1);
        let all = pieces(chunks, cs, t, hi);
        assert forall|i: int| 0 <= i < all.len() implies (#[trigger] all[i]).len() > 0 by {
            if i < rest.len() {
                assert(all[i] == rest[i]);
            }
        }
    }
}

/// Lists of which none is empty, laid end to end, have a row where there is
/// a list.
pub proof fn lemma_joined_nonempty(lists: Seq<Seq<Row>>)
    requires
        lists.len() > 0,
        forall|i: int| 0 <= i < lists.len() ==> (#[trigger] lists[i]).len() > 0,
    ensures
        joined(lists).len() > 0,
{
}

/// Where each map is the grouping of its chunk, the key of every row is the
/// key of an entry.
pub proof fn lemma_row_has_entry(
    maps: Seq<Vec<KeyedChunk>>,
    chunks: Seq<Chunk>,
    cs: Seq<usize>,
    n: int,
    p: int,
)
    requires
        0 <= n <= maps.len(),
        n <= chunks.len(),
        maps_group(maps, chunks, cs, n),
        0 <= p < rows_of(chunks.subrange(0, n)).len(),
    ensures
        crate::keyed::key_seen(
            flat_entries(maps.subrange(0, n)),
            row_key(rows_of(chunks.subrange(0, n))[p], cs),
            flat_entries(maps.subrange(0, n)).len() as int,
        ),
    decreases n,
{
    if n > 0 {
        lemma_rows_prefix(chunks, n - 1);
        let a = flat_entries(maps.subrange(0, n - 1));
        let b = maps[n - 1]@;
        assert(maps.subrange(0, n).drop_last() =~= maps.subrange(0, n - 1));
        assert(maps.subrange(0, n).last() == maps[n - 1]);
        let before = rows_of(chunks.subrange(0, n - 1));
        let t = row_key(rows_of(chunks.subrange(0, n))[p], cs);
        if p < before.len() {
            lemma_row_has_entry(maps, chunks, cs, n - 1, p);
            let r = choose|r: int| 0 <= r < a.len() && (#[trigger] a[r]).key@ == t;
            assert((a + b)[r].key@ == t);
        } else {
            let q = p - before.len();
            assert(is_keyed_grouping(b, &chunks[n - 1], cs));
            assert(has_keyed(b, row_key(chunks[n - 1].rows()[q], cs)));
            let g = choose|g: int| 0 <= g < b.len() && (#[trigger] b[g]).key@ == t;
            assert((a + b)[a.len() + g].key@ == t);
        }
    }
}

impl Table {
    /// Wraps the table as a dataset: grouped by `partitions` where they are
    /// given, otherwise as one part that holds a copy of the whole table
    /// under no filter.
    pub fn to_dataset(
        &self,
        partitions: Option<Vec<String>>,
        buckets: Option<Vec<String>>,
        storage: Option<DatasetStorage>,
    ) -> (r: Result<Dataset, TableError>)
        requires
            self.wf(),
        ensures
            r is Ok <==> (partitions matches Some(ps) ==> self.can_group(ps@)),
            r matches Ok(d) ==> d.wf() && d.partitions == partitions && d.buckets == buckets
                && d.storage == storage,
            r matches Ok(d) ==> match partitions {
                Some(ps) => is_partition(d.parts@, self, ps@),
                None => {
                    &&& d.parts.len() == 1
                    &&& d.parts[0].wf()
                    &&& d.parts[0].path is None
                    &&& d.parts[0].filters matches Some(f) && f.len() == 0
                    &&& d.parts[0].table matches Some(t) && t.rows() == self.rows() && same_fields(
                        t.fields@,
                        self.fields@,
                    )
                },
            },
            r matches Err(e) ==> partitions matches Some(ps) && e == self.group_error(ps@),
    {
        let parts = match &partitions {
            Some(ps) => match self.groupby(ps) {
                Ok(parts) => parts,
                Err(e) => {
                    return Err(e);
                },
            },
            None => {
                let mut parts: Vec<DatasetPart> = Vec::new();
                let filters: Vec<(String, String)> = Vec::new();
                parts.push(DatasetPart::new(Some(self.clone()), Some(filters), None));
                parts
            },
        };
        Ok(Dataset::new(partitions, buckets, parts, storage))
    }
}

} // verus!
