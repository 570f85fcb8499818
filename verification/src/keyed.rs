//! Merging the groups of several chunks: the sub-chunks that carry one
//! tuple of keys are gathered, in order, under that tuple.

use crate::chunks::Chunk;
use crate::column::Key;
use crate::labels::{key_label, key_to_string};
use crate::hash_index::{copy_positions, HashIndex};
use crate::groupby::{
    cols_view, hash_group_merge_recur, keys_in_range, lemma_same_tuple, names_first, row_tuple,
    same_upto,
};
use vstd::prelude::*;

verus! {

/// A sub-chunk and the tuple of keys that all its rows carry.
#[derive(Debug)]
pub struct KeyedChunk {
    pub key: Vec<Key>,
    pub chunk: Chunk,
}

/// The sub-chunks, in order, that carry one tuple of keys.
#[derive(Debug)]
pub struct KeyedChunks {
    pub key: Vec<Key>,
    pub chunks: Vec<Chunk>,
}

/// The entries of a list of maps, map after map.
pub open spec fn flat_entries(maps: Seq<Vec<KeyedChunk>>) -> Seq<KeyedChunk>
    decreases maps.len(),
{
    if maps.len() == 0 {
        Seq::empty()
    } else {
        flat_entries(maps.drop_last()) + maps.last()@
    }
}

/// The chunks of the entries before `hi` that are keyed `t`, in order.
pub open spec fn chunks_keyed(entries: Seq<KeyedChunk>, t: Seq<Key>, hi: int) -> Seq<Chunk>
    decreases hi,
{
    if hi <= 0 {
        Seq::empty()
    } else {
        let rest = chunks_keyed(entries, t, hi - 1);
        if entries[hi - 1].key@ == t {
            rest.push(entries[hi - 1].chunk)
        } else {
            rest
        }
    }
}

/// Whether some merged group is keyed `t`.
pub open spec fn has_merged(merged: Seq<KeyedChunks>, t: Seq<Key>) -> bool {
    exists|m: int| 0 <= m < merged.len() && (#[trigger] merged[m]).key@ == t
}

/// Whether `merged` gathers `entries` by key: each group holds, in order, the
/// chunks of every entry with its key, and there is at least one; no two
/// groups share a key; and every entry's key has a group.
pub open spec fn is_merge(merged: Seq<KeyedChunks>, entries: Seq<KeyedChunk>) -> bool {
    &&& forall|m: int|
        0 <= m < merged.len() ==> (#[trigger] merged[m]).chunks@ == chunks_keyed(
            entries,
            merged[m].key@,
            entries.len() as int,
        ) && merged[m].chunks@.len() > 0
    &&& forall|m: int, k: int|
        0 <= m < k < merged.len() ==> (#[trigger] merged[m]).key@ != (#[trigger] merged[k]).key@
    &&& forall|r: int| 0 <= r < entries.len() ==> has_merged(merged, (#[trigger] entries[r]).key@)
}

/// Whether every entry has a key of `width` integers in range.
pub open spec fn entries_wf(entries: Seq<KeyedChunk>, width: int) -> bool {
    forall|r: int|
        0 <= r < entries.len() ==> (#[trigger] entries[r]).key@.len() == width && keys_in_range(
            entries[r].key@,
        )
}

/// Whether some entry before `hi` is keyed `t`.
pub open spec fn key_seen(entries: Seq<KeyedChunk>, t: Seq<Key>, hi: int) -> bool {
    exists|q: int| 0 <= q < hi && (#[trigger] entries[q]).key@ == t
}

/// No entry before `hi` keyed `t` means no chunk keyed `t`.
pub proof fn lemma_chunks_keyed_none(entries: Seq<KeyedChunk>, t: Seq<Key>, hi: int)
    requires
        0 <= hi <= entries.len(),
        forall|r: int| 0 <= r < hi ==> (#[trigger] entries[r]).key@ != t,
    ensures
        chunks_keyed(entries, t, hi) == Seq::<Chunk>::empty(),
    decreases hi,
{
    if hi > 0 {
        lemma_chunks_keyed_none(entries, t, hi - 1);
    }
}

/// A copy of a tuple of keys.
pub fn copy_keys(keys: &Vec<Key>) -> (copy: Vec<Key>)
    ensures
        copy@ == keys@,
{
    let mut copy: Vec<Key> = Vec::new();
    let mut i: usize = 0;
    while i < keys.len()
        invariant
            i <= keys.len(),
            copy@ == keys@.subrange(0, i as int),
        decreases keys.len() - i,
    {
        copy.push(keys[i]);
        assert(copy@ =~= keys@.subrange(0, i + 1));
        i += 1;
    }
    assert(keys@.subrange(0, keys.len() as int) =~= keys@);
    copy
}

/// Gathers the entries of several maps by key: under each key the chunks of
/// every entry that carries it, in the order of the maps and, within a map,
/// of its entries.
pub fn hashmaps_merge(maps: Vec<Vec<KeyedChunk>>, width: usize) -> (merged: Vec<KeyedChunks>)
    requires
        entries_wf(flat_entries(maps@), width as int),
        flat_entries(maps@).len() <= u32::MAX,
    ensures
        is_merge(merged@, flat_entries(maps@)),
{
    let ghost entries = flat_entries(maps@);
    let ghost maps0 = maps@;
    let mut maps = maps;
    let mut flat: Vec<KeyedChunk> = Vec::new();
    let mut i: usize = 0;
    assert(maps@.subrange(0, 0) =~= Seq::empty());
    while i < maps.len()
        invariant
            i <= maps.len(),
            maps.len() == maps0.len(),
            forall|j: int| i <= j < maps.len() ==> #[trigger] maps[j] == maps0[j],
            flat@ == flat_entries(maps0.subrange(0, i as int)),
        decreases maps.len() - i,
    {
        proof {
            assert(maps0.subrange(0, i + 1).drop_last() =~= maps0.subrange(0, i as int));
        }
        flat.append(&mut maps[i]);
        i += 1;
    }
    assert(maps0.subrange(0, maps.len() as int) =~= maps0);
    let total = flat.len();
    let mut tcols: Vec<Vec<Key>> = Vec::new();
    let mut c: usize = 0;
    while c < width
        invariant
            c <= width,
            total == flat.len(),
            flat@ == entries,
            entries_wf(entries, width as int),
            tcols.len() == c,
            forall|j: int|
                0 <= j < c ==> (#[trigger] tcols[j]).len() == total && keys_in_range(tcols[j]@),
            forall|j: int, r: int|
                0 <= j < c && 0 <= r < total ==> (#[trigger] tcols[j])[r] == (
                #[trigger] entries[r]).key[j],
        decreases width - c,
    {
        let mut col: Vec<Key> = Vec::new();
        let mut r: usize = 0;
        while r < total
            invariant
                r <= total,
                c < width,
                total == flat.len(),
                flat@ == entries,
                entries_wf(entries, width as int),
                col.len() == r,
                forall|q: int| 0 <= q < r ==> #[trigger] col[q] == entries[q].key[c as int],
                keys_in_range(col@),
            decreases total - r,
        {
            assert(entries[r as int].key@.len() == width && keys_in_range(entries[r as int].key@));
            col.push(flat[r].key[c]);
            r += 1;
        }
        tcols.push(col);
        c += 1;
    }
    let ids = hash_group_merge_recur(&tcols, total);
    let ghost tv = cols_view(tcols@);
    proof {
        assert forall|r: int| 0 <= r < total implies #[trigger] row_tuple(tv, r)
            == entries[r].key@ by {
            assert(entries[r].key@.len() == width);
            assert forall|j: int| 0 <= j < width implies row_tuple(tv, r)[j]
                == entries[r].key@[j] by {
                assert(tv[j] == tcols[j]@);
            }
            assert(row_tuple(tv, r) =~= entries[r].key@);
        }
    }
    let mut merged: Vec<KeyedChunks> = Vec::new();
    let mut slots: Vec<usize> = Vec::new();
    let mut r: usize = 0;
    while r < total
        invariant
            r <= total,
            total == flat.len(),
            total == entries.len(),
            tv.len() == width,
            names_first(ids@, tv, width as int, total as int),
            forall|q: int| 0 <= q < total ==> #[trigger] row_tuple(tv, q) == entries[q].key@,
            forall|q: int| r <= q < total ==> #[trigger] flat[q] == entries[q],
            forall|q: int| 0 <= q < r ==> (#[trigger] flat[q]).key == entries[q].key,
            slots.len() == r,
            forall|q: int|
                0 <= q < r ==> (#[trigger] slots[q]) < merged.len() && merged[slots[q] as int].key@
                    == entries[q].key@,
            forall|m: int|
                0 <= m < merged.len() ==> (#[trigger] merged[m]).chunks@ == chunks_keyed(
                    entries,
                    merged[m].key@,
                    r as int,
                ) && merged[m].chunks@.len() > 0,
            forall|m: int, k: int|
                0 <= m < k < merged.len() ==> (#[trigger] merged[m]).key@ != (
                #[trigger] merged[k]).key@,
            forall|m: int|
                0 <= m < merged.len() ==> key_seen(entries, (#[trigger] merged[m]).key@, r as int),
        decreases total - r,
    {
        let first = ids[r] as usize;
        let ghost t = entries[r as int].key@;
        let ghost before = merged@;
        proof {
            lemma_same_tuple(tv, first as int, r as int);
            assert(same_upto(tv, width as int, first as int, r as int));
            assert(entries[first as int].key@ == t);
        }
        let mut chunk = Chunk { columns: Vec::new() };
        std::mem::swap(&mut flat[r].chunk, &mut chunk);
        if first == r {
            proof {
                assert forall|q: int| 0 <= q < r implies (#[trigger] entries[q]).key@ != t by {
                    lemma_same_tuple(tv, q, r as int);
                    if same_upto(tv, width as int, q, r as int) {
                        assert(ids[r as int] <= q);
                    }
                }
                lemma_chunks_keyed_none(entries, t, r as int);
            }
            let key = copy_keys(&flat[r].key);
            let mut chunks: Vec<Chunk> = Vec::new();
            chunks.push(chunk);
            slots.push(merged.len());
            merged.push(KeyedChunks { key, chunks });
            proof {
                assert forall|m: int| 0 <= m < merged.len() implies key_seen(
                    entries,
                    (#[trigger] merged[m]).key@,
                    r + 1,
                ) by {
                    if m < before.len() {
                        let q = choose|q: int|
                            0 <= q < r && (#[trigger] entries[q]).key@ == before[m].key@;
                        assert(entries[q].key@ == merged[m].key@);
                    } else {
                        assert(entries[r as int].key@ == merged[m].key@);
                    }
                }
                assert forall|m: int, k: int| 0 <= m < k < merged.len() implies (
                #[trigger] merged[m]).key@ != (#[trigger] merged[k]).key@ by {
                    if k == before.len() {
                        let q = choose|q: int|
                            0 <= q < r && (#[trigger] entries[q]).key@ == before[m].key@;
                        assert(entries[q].key@ != t);
                    }
                }
            }
        } else {
            let m = slots[first];
            merged[m].chunks.push(chunk);
            slots.push(m);
            proof {
                assert forall|k: int| 0 <= k < merged.len() implies key_seen(
                    entries,
                    (#[trigger] merged[k]).key@,
                    r + 1,
                ) by {
                    let q = choose|q: int|
                        0 <= q < r && (#[trigger] entries[q]).key@ == before[k].key@;
                    assert(entries[q].key@ == merged[k].key@);
                }
            }
        }
        r += 1;
    }
    proof {
        assert forall|q: int| 0 <= q < entries.len() implies has_merged(
            merged@,
            (#[trigger] entries[q]).key@,
        ) by {
            assert(merged[slots[q] as int].key@ == entries[q].key@);
        }
    }
    merged
}

/// An index with its keys written as labels: for each key, in the order in
/// which the keys were first added, the label of the key and the positions
/// held under it. The null key is labelled by the empty string.
pub fn hashmap_to_str(map: &HashIndex) -> (out: Vec<(String, Vec<u32>)>)
    requires
        map.wf(),
    ensures
        out.len() == map.keys.len(),
        forall|j: int|
            0 <= j < out.len() ==> (#[trigger] out[j]).0@ == key_label(map.keys[j]) && out[j].1@
                == map@[map.keys[j]],
{
    let mut out: Vec<(String, Vec<u32>)> = Vec::new();
    let mut j: usize = 0;
    while j < map.keys.len()
        invariant
            j <= map.keys.len(),
            map.wf(),
            out.len() == j,
            forall|i: int|
                0 <= i < j ==> (#[trigger] out[i]).0@ == key_label(map.keys[i]) && out[i].1@
                    == map@[map.keys[i]],
        decreases map.keys.len() - j,
    {
        assert(map.has(map.keys[j as int]) && map.slot_of(map.keys[j as int]) == j);
        out.push((key_to_string(&map.keys[j]), copy_positions(&map.groups[j])));
        j += 1;
    }
    out
}

} // verus!
