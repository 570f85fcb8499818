//! Last-writer-wins indexes over a key column: from each distinct key to the
//! last position that carries it. Where only the presence of a key matters,
//! as in upsert and delete, this is the index to build.

use crate::column::Key;
use crate::hash_index::{first_seen, lemma_first_seen_split, occurs_in, seen_in, unseen};
use crate::par::par_map_range;
use crate::workers::{
    lemma_worker_adjoining, worker_bounds, worker_hi, worker_lo, SMALL_THRESHOLD, WORKERS,
};
use std::collections::HashMap;
use vstd::prelude::*;

verus! {

broadcast use vstd::std_specs::hash::group_hash_axioms;

/// The last position `p` with `lo <= p < hi` at which `keys` holds `k`.
pub open spec fn last_in(keys: Seq<Key>, k: Key, lo: int, hi: int) -> u32
    decreases hi - lo,
{
    if hi <= lo {
        0
    } else if keys[hi - 1] == k {
        (hi - 1) as u32
    } else {
        last_in(keys, k, lo, hi - 1)
    }
}

/// The last-writer-wins index of the stretch `keys[lo..hi]`.
pub open spec fn last_index_of_range(keys: Seq<Key>, lo: int, hi: int) -> Map<Key, u32> {
    Map::new(|k: Key| occurs_in(keys, k, lo, hi), |k: Key| last_in(keys, k, lo, hi))
}

/// The last-writer-wins index of a whole key column.
pub open spec fn last_index_of_keys(keys: Seq<Key>) -> Map<Key, u32> {
    last_index_of_range(keys, 0, keys.len() as int)
}

/// A mapping from each key to the last position that carries it.
pub struct LastIndex {
    pub keys: Vec<Key>,
    pub last: Vec<u32>,
    pub slots: HashMap<i128, usize>,
    pub null_slot: Option<usize>,
}

impl LastIndex {
    /// Whether `k` is held.
    pub open spec fn has(&self, k: Key) -> bool {
        match k {
            None => self.null_slot is Some,
            Some(v) => self.slots@.contains_key(v),
        }
    }

    /// The place of `k` among the keys.
    pub open spec fn slot_of(&self, k: Key) -> int {
        match k {
            None => self.null_slot.unwrap() as int,
            Some(v) => self.slots@[v] as int,
        }
    }

    /// There is one position per key, and `slots` and `null_slot` find each
    /// key at its place and nothing else.
    pub open spec fn wf(&self) -> bool {
        &&& self.keys.len() == self.last.len()
        &&& forall|k: Key| #[trigger]
            self.has(k) ==> 0 <= self.slot_of(k) < self.keys.len() && self.keys[self.slot_of(k)]
                == k
        &&& forall|j: int|
            0 <= j < self.keys.len() ==> self.has(#[trigger] self.keys[j]) && self.slot_of(
                self.keys[j],
            ) == j
    }

    /// The part of the index held by its first `j` keys.
    pub open spec fn partial(&self, j: int) -> Map<Key, u32> {
        Map::new(|k: Key| self.has(k) && self.slot_of(k) < j, |k: Key| self.last[self.slot_of(k)])
    }
}

impl View for LastIndex {
    type V = Map<Key, u32>;

    open spec fn view(&self) -> Map<Key, u32> {
        Map::new(|k: Key| self.has(k), |k: Key| self.last[self.slot_of(k)])
    }
}

impl LastIndex {
    /// An index that holds no key.
    pub fn new() -> (idx: LastIndex)
        ensures
            idx.wf(),
            idx@ == Map::<Key, u32>::empty(),
            idx.keys@ == Seq::<Key>::empty(),
    {
        let idx = LastIndex {
            keys: Vec::new(),
            last: Vec::new(),
            slots: HashMap::new(),
            null_slot: None,
        };
        assert(idx@ =~= Map::<Key, u32>::empty());
        idx
    }

    /// The place of `key` among the keys, if it is held.
    pub fn find(&self, key: &Key) -> (r: Option<usize>)
        requires
            self.wf(),
        ensures
            r is Some <==> self.has(*key),
            r matches Some(j) ==> j == self.slot_of(*key) && j < self.keys.len(),
    {
        match key {
            None => self.null_slot,
            Some(v) => match self.slots.get(v) {
                Some(j) => Some(*j),
                None => None,
            },
        }
    }

    /// The last position recorded under `key`.
    pub fn get(&self, key: &Key) -> (r: Option<u32>)
        requires
            self.wf(),
        ensures
            r is Some <==> self@.contains_key(*key),
            r matches Some(p) ==> p == self@[*key],
    {
        match self.find(key) {
            Some(j) => Some(self.last[j]),
            None => None,
        }
    }

    /// Whether the index holds `key`.
    pub fn contains_key(&self, key: &Key) -> (b: bool)
        requires
            self.wf(),
        ensures
            b == self@.contains_key(*key),
    {
        self.find(key).is_some()
    }

    /// Records `position` under `key`, in place of any position held before.
    pub fn insert(&mut self, key: Key, position: u32)
        requires
            old(self).wf(),
        ensures
            final(self).wf(),
            final(self)@ == old(self)@.insert(key, position),
            final(self).keys@ == if old(self)@.contains_key(key) {
                old(self).keys@
            } else {
                old(self).keys@.push(key)
            },
    {
        match self.find(&key) {
            Some(j) => {
                self.last[j] = position;
                assert forall|k: Key| self.has(k) == old(self).has(k) && self.slot_of(k) == old(
                    self,
                ).slot_of(k) by {}
            },
            None => {
                let j = self.keys.len();
                self.keys.push(key);
                self.last.push(position);
                match key {
                    None => {
                        self.null_slot = Some(j);
                    },
                    Some(v) => {
                        self.slots.insert(v, j);
                    },
                }
                assert forall|k: Key| #[trigger] self.has(k) == (old(self).has(k) || k == key)
                    && (old(self).has(k) ==> self.slot_of(k) == old(self).slot_of(k)) by {}
                assert(self.has(key) && self.slot_of(key) == j);
            },
        }
        assert(self@ =~= old(self)@.insert(key, position));
    }

    /// Takes over every entry of `other`, which wins where both hold a key.
    pub fn extend(&mut self, other: &LastIndex)
        requires
            old(self).wf(),
            other.wf(),
        ensures
            final(self).wf(),
            final(self)@ == old(self)@.union_prefer_right(other@),
            final(self).keys@ == old(self).keys@ + unseen(
                other.keys@,
                old(self)@.dom(),
                other.keys.len() as int,
            ),
    {
        let mut j: usize = 0;
        assert(self@ =~= old(self)@.union_prefer_right(other.partial(0)));
        assert(self.keys@ + Seq::<Key>::empty() =~= self.keys@);
        while j < other.keys.len()
            invariant
                j <= other.keys.len(),
                other.wf(),
                self.wf(),
                self@ == old(self)@.union_prefer_right(other.partial(j as int)),
                self.keys@ == old(self).keys@ + unseen(other.keys@, old(self)@.dom(), j as int),
            decreases other.keys.len() - j,
        {
            let ghost kj = other.keys[j as int];
            assert(other.has(kj) && other.slot_of(kj) == j);
            proof {
                assert(!other.partial(j as int).contains_key(kj));
                assert(self@.contains_key(kj) == old(self)@.dom().contains(kj));
                let kept = unseen(other.keys@, old(self)@.dom(), j as int);
                assert(old(self).keys@ + kept.push(kj) =~= (old(self).keys@ + kept).push(kj));
            }
            self.insert(other.keys[j], other.last[j]);
            assert(self@ =~= old(self)@.union_prefer_right(other.partial(j + 1))) by {
                assert forall|k: Key|
                    other.partial(j + 1).contains_key(k) == (other.partial(j as int).contains_key(
                        k,
                    ) || k == kj) by {}
            }
            j += 1;
        }
        assert(other.partial(other.keys.len() as int) =~= other@);
    }
}

/// A list of last-writer-wins indexes merged from left to right: where
/// several hold a key, the last of them wins.
pub open spec fn merged_last(maps: Seq<Map<Key, u32>>) -> Map<Key, u32>
    decreases maps.len(),
{
    if maps.len() == 0 {
        Map::empty()
    } else {
        merged_last(maps.drop_last()).union_prefer_right(maps.last())
    }
}

/// The views of a list of last-writer-wins indexes.
pub open spec fn last_views_of(maps: Seq<LastIndex>) -> Seq<Map<Key, u32>> {
    maps.map_values(|m: LastIndex| m@)
}

/// Lengthening a stretch by one position makes that position the last of the
/// key found there.
pub proof fn lemma_last_index_step(keys: Seq<Key>, lo: int, hi: int)
    requires
        0 <= lo <= hi < keys.len(),
    ensures
        last_index_of_range(keys, lo, hi + 1) == last_index_of_range(keys, lo, hi).insert(
            keys[hi],
            hi as u32,
        ),
{
    let before = last_index_of_range(keys, lo, hi);
    let after = last_index_of_range(keys, lo, hi + 1);
    let expected = before.insert(keys[hi], hi as u32);
    assert forall|k: Key| after.contains_key(k) == expected.contains_key(k) by {
        if occurs_in(keys, k, lo, hi + 1) {
            let p = choose|p: int| lo <= p < hi + 1 && keys[p] == k;
            if p < hi {
                assert(lo <= p < hi && keys[p] == k);
            }
        }
        if occurs_in(keys, k, lo, hi) {
            let p = choose|p: int| lo <= p < hi && keys[p] == k;
            assert(lo <= p < hi + 1 && keys[p] == k);
        }
        if k == keys[hi] {
            assert(lo <= hi < hi + 1 && keys[hi] == k);
        }
    }
    assert(after =~= expected);
}

/// Where the second of two adjoining stretches holds a key, its last position
/// there is the last over both; elsewhere that of the first stretch is.
pub proof fn lemma_last_adjoining(keys: Seq<Key>, lo: int, mid: int, hi: int)
    requires
        lo <= mid <= hi,
    ensures
        last_index_of_range(keys, lo, mid).union_prefer_right(last_index_of_range(keys, mid, hi))
            == last_index_of_range(keys, lo, hi),
    decreases hi - mid,
{
    let a = last_index_of_range(keys, lo, mid);
    let b = last_index_of_range(keys, mid, hi);
    let whole = last_index_of_range(keys, lo, hi);
    if hi == mid {
        assert(b =~= Map::empty());
        assert(a.union_prefer_right(b) =~= whole);
    } else {
        lemma_last_adjoining(keys, lo, mid, hi - 1);
        let b1 = last_index_of_range(keys, mid, hi - 1);
        let w1 = last_index_of_range(keys, lo, hi - 1);
        assert forall|k: Key| a.union_prefer_right(b).contains_key(k) == whole.contains_key(
            k,
        ) by {
            if occurs_in(keys, k, lo, mid) {
                let p = choose|p: int| lo <= p < mid && keys[p] == k;
                assert(lo <= p < hi && keys[p] == k);
            }
            if occurs_in(keys, k, mid, hi) {
                let p = choose|p: int| mid <= p < hi && keys[p] == k;
                assert(lo <= p < hi && keys[p] == k);
            }
            if occurs_in(keys, k, lo, hi) {
                let p = choose|p: int| lo <= p < hi && keys[p] == k;
                if p < mid {
                    assert(lo <= p < mid && keys[p] == k);
                } else {
                    assert(mid <= p < hi && keys[p] == k);
                }
            }
        }
        assert forall|k: Key| whole.contains_key(k) implies a.union_prefer_right(b)[k]
            == whole[k] by {
            if keys[hi - 1] == k {
                assert(mid <= hi - 1 < hi && keys[hi - 1] == k);
            } else {
                assert(b.contains_key(k) == b1.contains_key(k)) by {
                    if occurs_in(keys, k, mid, hi) {
                        let p = choose|p: int| mid <= p < hi && keys[p] == k;
                        assert(mid <= p < hi - 1 && keys[p] == k);
                    }
                    if occurs_in(keys, k, mid, hi - 1) {
                        let p = choose|p: int| mid <= p < hi - 1 && keys[p] == k;
                        assert(mid <= p < hi && keys[p] == k);
                    }
                }
                assert(w1.contains_key(k)) by {
                    let p = choose|p: int| lo <= p < hi && keys[p] == k;
                    assert(lo <= p < hi - 1 && keys[p] == k);
                }
                assert(a.union_prefer_right(b1)[k] == w1[k]);
            }
        }
        assert(a.union_prefer_right(b) =~= whole);
    }
}

/// Builds the last-writer-wins index of the stretch `lo..hi` of a key column,
/// with positions counted from the start of the column.
pub fn hashmap_slice_to_idx(keys: &Vec<Key>, lo: usize, hi: usize) -> (idx: LastIndex)
    requires
        lo <= hi <= keys@.len() <= u32::MAX,
    ensures
        idx.wf(),
        idx@ == last_index_of_range(keys@, lo as int, hi as int),
        idx.keys@ == first_seen(keys@, lo as int, hi as int),
{
    let mut idx = LastIndex::new();
    let mut i: usize = lo;
    assert(idx@ =~= last_index_of_range(keys@, lo as int, lo as int));
    while i < hi
        invariant
            lo <= i <= hi <= keys@.len() <= u32::MAX,
            idx.wf(),
            idx@ == last_index_of_range(keys@, lo as int, i as int),
            idx.keys@ == first_seen(keys@, lo as int, i as int),
        decreases hi - i,
    {
        proof {
            lemma_last_index_step(keys@, lo as int, i as int);
        }
        idx.insert(keys[i], i as u32);
        i += 1;
    }
    idx
}

/// Builds the last-writer-wins index of a whole key column in one pass.
pub fn hashmap_primitive_to_idx(keys: &Vec<Key>) -> (idx: LastIndex)
    requires
        keys@.len() <= u32::MAX,
    ensures
        idx.wf(),
        idx@ == last_index_of_keys(keys@),
        idx.keys@ == first_seen(keys@, 0, keys@.len() as int),
{
    hashmap_slice_to_idx(keys, 0, keys.len())
}

/// The keys of a list of last-writer-wins indexes, index after index, each
/// key where it first stands.
pub open spec fn merged_last_keys(maps: Seq<LastIndex>) -> Seq<Key>
    decreases maps.len(),
{
    if maps.len() == 0 {
        Seq::empty()
    } else {
        merged_last_keys(maps.drop_last()) + unseen(
            maps.last().keys@,
            merged_last(last_views_of(maps.drop_last())).dom(),
            maps.last().keys.len() as int,
        )
    }
}

/// Combines last-writer-wins indexes into one; where several hold a key, the
/// last in the list wins. The keys stand in the order of the list, each
/// where it first stands.
pub fn hashmaps_merge_idx(maps: Vec<LastIndex>) -> (idx: LastIndex)
    requires
        forall|w: int| 0 <= w < maps.len() ==> (#[trigger] maps[w]).wf(),
    ensures
        idx.wf(),
        idx@ == merged_last(last_views_of(maps@)),
        idx.keys@ == merged_last_keys(maps@),
{
    let mut idx = LastIndex::new();
    let mut w: usize = 0;
    assert(last_views_of(maps@).subrange(0, 0) =~= Seq::empty());
    assert(maps@.subrange(0, 0) =~= Seq::empty());
    while w < maps.len()
        invariant
            w <= maps.len(),
            idx.wf(),
            forall|v: int| 0 <= v < maps.len() ==> (#[trigger] maps[v]).wf(),
            idx@ == merged_last(last_views_of(maps@).subrange(0, w as int)),
            idx.keys@ == merged_last_keys(maps@.subrange(0, w as int)),
        decreases maps.len() - w,
    {
        idx.extend(&maps[w]);
        proof {
            let upto = last_views_of(maps@).subrange(0, w + 1);
            assert(upto.drop_last() =~= last_views_of(maps@).subrange(0, w as int));
            assert(upto.last() == maps[w as int]@);
            let some = maps@.subrange(0, w + 1);
            assert(some.drop_last() =~= maps@.subrange(0, w as int));
            assert(some.last() == maps[w as int]);
            assert(last_views_of(some.drop_last()) =~= last_views_of(maps@).subrange(
                0,
                w as int,
            ));
        }
        w += 1;
    }
    assert(last_views_of(maps@).subrange(0, maps.len() as int) =~= last_views_of(maps@));
    assert(maps@.subrange(0, maps.len() as int) =~= maps@);
    idx
}

/// Builds the last-writer-wins local index of the stretch of worker `w`.
pub fn hashmap_worker_to_idx(keys: &Vec<Key>, w: usize, size: usize) -> (idx: LastIndex)
    requires
        keys@.len() <= u32::MAX,
        w <= u32::MAX,
    ensures
        idx.wf(),
        idx@ == last_index_of_range(
            keys@,
            worker_lo(w as int, size as int, keys@.len() as int),
            worker_hi(w as int, size as int, keys@.len() as int),
        ),
        idx.keys@ == first_seen(
            keys@,
            worker_lo(w as int, size as int, keys@.len() as int),
            worker_hi(w as int, size as int, keys@.len() as int),
        ),
{
    let (lo, hi) = worker_bounds(keys.len(), w, size);
    hashmap_slice_to_idx(keys, lo, hi)
}

/// Merging the last-writer-wins local indexes of the first `n` workers gives
/// that index of the column up to where worker `n` starts.
pub proof fn lemma_merged_last_workers(
    keys: Seq<Key>,
    maps: Seq<Map<Key, u32>>,
    size: int,
    n: int,
)
    requires
        0 <= n <= maps.len(),
        0 <= size,
        forall|w: int|
            0 <= w < n ==> #[trigger] maps[w] == last_index_of_range(
                keys,
                worker_lo(w, size, keys.len() as int),
                worker_hi(w, size, keys.len() as int),
            ),
    ensures
        merged_last(maps.subrange(0, n)) == last_index_of_range(
            keys,
            0,
            worker_lo(n, size, keys.len() as int),
        ),
    decreases n,
{
    let len = keys.len() as int;
    if n == 0 {
        lemma_worker_adjoining(0, size, len);
        assert(maps.subrange(0, 0) =~= Seq::empty());
        assert(last_index_of_range(keys, 0, 0) =~= Map::empty());
    } else {
        lemma_merged_last_workers(keys, maps, size, n - 1);
        lemma_worker_adjoining(n - 1, size, len);
        assert(maps.subrange(0, n).drop_last() =~= maps.subrange(0, n - 1));
        assert(maps.subrange(0, n).last() == maps[n - 1]);
        lemma_last_adjoining(
            keys,
            0,
            worker_lo(n - 1, size, len),
            worker_hi(n - 1, size, len),
        );
    }
}

/// The keys of the merged last-writer-wins local indexes of the first `n`
/// workers are the distinct keys of the column up to where worker `n`
/// starts, in the order in which they first occur.
pub proof fn lemma_merged_last_worker_keys(
    keys: Seq<Key>,
    maps: Seq<LastIndex>,
    size: int,
    n: int,
)
    requires
        0 <= n <= maps.len(),
        0 <= size,
        forall|w: int|
            0 <= w < n ==> (#[trigger] maps[w])@ == last_index_of_range(
                keys,
                worker_lo(w, size, keys.len() as int),
                worker_hi(w, size, keys.len() as int),
            ) && maps[w].keys@ == first_seen(
                keys,
                worker_lo(w, size, keys.len() as int),
                worker_hi(w, size, keys.len() as int),
            ),
    ensures
        merged_last_keys(maps.subrange(0, n)) == first_seen(
            keys,
            0,
            worker_lo(n, size, keys.len() as int),
        ),
    decreases n,
{
    let len = keys.len() as int;
    if n == 0 {
        lemma_worker_adjoining(0, size, len);
        assert(maps.subrange(0, 0) =~= Seq::empty());
    } else {
        lemma_merged_last_worker_keys(keys, maps, size, n - 1);
        lemma_worker_adjoining(n - 1, size, len);
        let upto = maps.subrange(0, n);
        assert(upto.drop_last() =~= maps.subrange(0, n - 1));
        assert(upto.last() == maps[n - 1]);
        let views = last_views_of(maps);
        assert(last_views_of(upto.drop_last()) =~= views.subrange(0, n - 1));
        assert forall|w: int| 0 <= w < n - 1 implies #[trigger] views[w] == last_index_of_range(
            keys,
            worker_lo(w, size, len),
            worker_hi(w, size, len),
        ) by {
            assert(views[w] == maps[w]@);
        }
        lemma_merged_last_workers(keys, views, size, n - 1);
        let lo = worker_lo(n - 1, size, len);
        let hi = worker_hi(n - 1, size, len);
        assert(0 <= lo) by {
            assert((n - 1) * size >= 0) by (nonlinear_arith)
                requires
                    0 <= n - 1,
                    0 <= size,
            ;
        }
        assert(last_index_of_range(keys, 0, lo).dom() =~= seen_in(keys, 0, lo));
        lemma_first_seen_split(keys, 0, lo, hi);
    }
}

/// Builds the last-writer-wins index of a key column: in one pass where the
/// column is short, otherwise from the local indexes of [`WORKERS`]
/// stretches, built side by side and then merged. Either way the keys stand
/// in the order in which they first occur in the column.
pub fn hashmap_primitive_to_idx_par(keys: &Vec<Key>) -> (idx: LastIndex)
    requires
        keys@.len() <= u32::MAX,
    ensures
        idx.wf(),
        idx@ == last_index_of_keys(keys@),
        idx.keys@ == first_seen(keys@, 0, keys@.len() as int),
{
    let len = keys.len();
    if len > SMALL_THRESHOLD {
        let size = len / WORKERS + 1;
        let build = (|w: usize| -> (idx: LastIndex)
            requires
                WORKERS > w,
            ensures
                idx.wf(),
                idx@ == last_index_of_range(
                    keys@,
                    worker_lo(w as int, size as int, keys@.len() as int),
                    worker_hi(w as int, size as int, keys@.len() as int),
                ),
                idx.keys@ == first_seen(
                    keys@,
                    worker_lo(w as int, size as int, keys@.len() as int),
                    worker_hi(w as int, size as int, keys@.len() as int),
                ),
            {
                hashmap_worker_to_idx(keys, w, size)
            });
        let maps = par_map_range(WORKERS, build);
        proof {
            let ks = keys@;
            let views = last_views_of(maps@);
            assert(views.subrange(0, WORKERS as int) =~= views);
            assert(maps@.subrange(0, WORKERS as int) =~= maps@);
            lemma_merged_last_workers(ks, views, size as int, WORKERS as int);
            lemma_merged_last_worker_keys(ks, maps@, size as int, WORKERS as int);
            assert(WORKERS * size > len) by (nonlinear_arith)
                requires
                    size == len / WORKERS + 1,
                    WORKERS == 24,
            ;
        }
        hashmaps_merge_idx(maps)
    } else {
        hashmap_primitive_to_idx(keys)
    }
}

} // verus!
