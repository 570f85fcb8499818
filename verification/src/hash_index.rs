//! Hash indexes over a key column: from each distinct key to the positions
//! that carry it.

use crate::column::Key;
use crate::last_index::LastIndex;
use crate::par::par_map_range;
use crate::workers::{
    lemma_worker_adjoining, worker_bounds, worker_hi, worker_lo, SMALL_THRESHOLD, WORKERS,
};
use std::collections::HashMap;
use vstd::prelude::*;

verus! {

broadcast use vstd::std_specs::hash::group_hash_axioms;

/// The positions `p` with `lo <= p < hi` at which `keys` holds `k`, ascending.
pub open spec fn positions_in(keys: Seq<Key>, k: Key, lo: int, hi: int) -> Seq<u32>
    decreases hi - lo,
{
    if hi <= lo {
        Seq::empty()
    } else {
        let rest = positions_in(keys, k, lo, hi - 1);
        if keys[hi - 1] == k {
            rest.push((hi - 1) as u32)
        } else {
            rest
        }
    }
}

/// Whether `k` is held somewhere in `keys[lo..hi]`.
pub open spec fn occurs_in(keys: Seq<Key>, k: Key, lo: int, hi: int) -> bool {
    exists|p: int| lo <= p < hi && keys[p] == k
}

/// The index of the stretch `keys[lo..hi]`, in positions of the whole column.
pub open spec fn index_of_range(keys: Seq<Key>, lo: int, hi: int) -> Map<Key, Seq<u32>> {
    Map::new(|k: Key| occurs_in(keys, k, lo, hi), |k: Key| positions_in(keys, k, lo, hi))
}

/// The index of a whole key column.
pub open spec fn index_of_keys(keys: Seq<Key>) -> Map<Key, Seq<u32>> {
    index_of_range(keys, 0, keys.len() as int)
}

/// The distinct keys of the stretch `keys[lo..hi]`, in the order in which they
/// first occur.
pub open spec fn first_seen(keys: Seq<Key>, lo: int, hi: int) -> Seq<Key>
    decreases hi - lo,
{
    if hi <= lo {
        Seq::empty()
    } else {
        let rest = first_seen(keys, lo, hi - 1);
        if occurs_in(keys, keys[hi - 1], lo, hi - 1) {
            rest
        } else {
            rest.push(keys[hi - 1])
        }
    }
}

/// The keys that are held somewhere in `keys[lo..hi]`.
pub open spec fn seen_in(keys: Seq<Key>, lo: int, hi: int) -> Set<Key> {
    Set::new(|k: Key| occurs_in(keys, k, lo, hi))
}

/// Those of the first `hi` of `more` that are not among `seen`, in order.
pub open spec fn unseen(more: Seq<Key>, seen: Set<Key>, hi: int) -> Seq<Key>
    decreases hi,
{
    if hi <= 0 {
        Seq::empty()
    } else {
        let rest = unseen(more, seen, hi - 1);
        if seen.contains(more[hi - 1]) {
            rest
        } else {
            rest.push(more[hi - 1])
        }
    }
}

/// The distinct keys of two adjoining stretches, in the order in which they
/// first occur, are those of the first stretch followed by those of the
/// second that the first does not hold.
pub proof fn lemma_first_seen_split(keys: Seq<Key>, lo: int, mid: int, hi: int)
    requires
        lo <= mid <= hi,
    ensures
        first_seen(keys, lo, hi) == first_seen(keys, lo, mid) + unseen(
            first_seen(keys, mid, hi),
            seen_in(keys, lo, mid),
            first_seen(keys, mid, hi).len() as int,
        ),
    decreases hi - mid,
{
    let head = first_seen(keys, lo, mid);
    let seen = seen_in(keys, lo, mid);
    if hi == mid {
        assert(head + Seq::<Key>::empty() =~= head);
    } else {
        lemma_first_seen_split(keys, lo, mid, hi - 1);
        let k = keys[hi - 1];
        let before = first_seen(keys, mid, hi - 1);
        let all = first_seen(keys, mid, hi);
        let kept = unseen(before, seen, before.len() as int);
        if occurs_in(keys, k, mid, hi - 1) {
            let p = choose|p: int| mid <= p < hi - 1 && keys[p] == k;
            assert(lo <= p < hi - 1 && keys[p] == k);
        } else {
            assert(all == before.push(k));
            lemma_unseen_prefix(before, all, seen, before.len() as int);
            if seen.contains(k) {
                let p = choose|p: int| lo <= p < mid && keys[p] == k;
                assert(lo <= p < hi - 1 && keys[p] == k);
            } else {
                if occurs_in(keys, k, lo, hi - 1) {
                    let p = choose|p: int| lo <= p < hi - 1 && keys[p] == k;
                    if p < mid {
                        assert(lo <= p < mid && keys[p] == k);
                    } else {
                        assert(mid <= p < hi - 1 && keys[p] == k);
                    }
                }
                assert(head + kept.push(k) =~= (head + kept).push(k));
            }
        }
    }
}

/// What is unseen among the first `hi` of a list does not depend on what
/// follows them.
pub proof fn lemma_unseen_prefix(a: Seq<Key>, b: Seq<Key>, seen: Set<Key>, hi: int)
    requires
        0 <= hi <= a.len() <= b.len(),
        forall|i: int| 0 <= i < a.len() ==> a[i] == b[i],
    ensures
        unseen(b, seen, hi) == unseen(a, seen, hi),
    decreases hi,
{
    if hi > 0 {
        lemma_unseen_prefix(a, b, seen, hi - 1);
    }
}

/// A copy of a list of positions.
pub fn copy_positions(positions: &Vec<u32>) -> (copy: Vec<u32>)
    ensures
        copy@ == positions@,
{
    let mut copy: Vec<u32> = Vec::new();
    let mut i: usize = 0;
    while i < positions.len()
        invariant
            i <= positions.len(),
            copy@ == positions@.subrange(0, i as int),
        decreases positions.len() - i,
    {
        copy.push(positions[i]);
        assert(copy@ =~= positions@.subrange(0, i + 1));
        i += 1;
    }
    assert(positions@.subrange(0, positions.len() as int) =~= positions@);
    copy
}

/// A mapping from each key to the positions that carry it.
///
/// The distinct keys are kept in the order in which they were first added;
/// `slots` finds the place of a non-null key in that order.
pub struct HashIndex {
    pub keys: Vec<Key>,
    pub groups: Vec<Vec<u32>>,
    pub slots: HashMap<i128, usize>,
    pub null_slot: Option<usize>,
}

impl HashIndex {
    /// Whether `k` has a group.
    pub open spec fn has(&self, k: Key) -> bool {
        match k {
            None => self.null_slot is Some,
            Some(v) => self.slots@.contains_key(v),
        }
    }

    /// The place of `k` among the keys.
    pub open spec fn slot_of(&self, k: Key) -> int {
        match k {
            None => self.null_slot.unwrap() as int,
            Some(v) => self.slots@[v] as int,
        }
    }

    /// There is one group per key, and `slots` and `null_slot` find each key
    /// at its place and nothing else.
    pub open spec fn wf(&self) -> bool {
        &&& self.keys.len() == self.groups.len()
        &&& forall|k: Key| #[trigger]
            self.has(k) ==> 0 <= self.slot_of(k) < self.keys.len() && self.keys[self.slot_of(k)]
                == k
        &&& forall|j: int|
            0 <= j < self.keys.len() ==> self.has(#[trigger] self.keys[j]) && self.slot_of(
                self.keys[j],
            ) == j
    }
}

impl View for HashIndex {
    type V = Map<Key, Seq<u32>>;

    open spec fn view(&self) -> Map<Key, Seq<u32>> {
        Map::new(|k: Key| self.has(k), |k: Key| self.groups[self.slot_of(k)]@)
    }
}

impl HashIndex {
    /// An index that holds no key.
    pub fn new() -> (idx: HashIndex)
        ensures
            idx.wf(),
            idx@ == Map::<Key, Seq<u32>>::empty(),
            idx.keys@ == Seq::<Key>::empty(),
    {
        let idx = HashIndex {
            keys: Vec::new(),
            groups: Vec::new(),
            slots: HashMap::new(),
            null_slot: None,
        };
        assert(idx@ =~= Map::<Key, Seq<u32>>::empty());
        idx
    }

    /// Number of distinct keys.
    pub fn len(&self) -> (n: usize)
        requires
            self.wf(),
        ensures
            n == self.keys.len(),
    {
        self.keys.len()
    }

    /// The place of `key` among the keys, if it has a group.
    pub fn find(&self, key: &Key) -> (r: Option<usize>)
        requires
            self.wf(),
        ensures
            r is Some <==> self.has(*key),
            r matches Some(j) ==> j == self.slot_of(*key) && j < self.keys.len(),
    {
        match key {
            None => self.null_slot,
            Some(v) => match self.slots.get(v) {
                Some(j) => Some(*j),
                None => None,
            },
        }
    }

    /// The positions recorded under `key`.
    pub fn get(&self, key: &Key) -> (r: Option<&Vec<u32>>)
        requires
            self.wf(),
        ensures
            r is Some <==> self@.contains_key(*key),
            r matches Some(g) ==> g@ == self@[*key],
    {
        match self.find(key) {
            Some(j) => Some(&self.groups[j]),
            None => None,
        }
    }

    /// Whether the index holds `key`.
    pub fn contains_key(&self, key: &Key) -> (b: bool)
        requires
            self.wf(),
        ensures
            b == self@.contains_key(*key),
    {
        self.find(key).is_some()
    }

    /// What the index maps `k` to, or nothing where it has no group.
    pub open spec fn group_or_empty(m: Map<Key, Seq<u32>>, k: Key) -> Seq<u32> {
        if m.contains_key(k) {
            m[k]
        } else {
            Seq::empty()
        }
    }

    /// Records `position` under `key`, opening the group if needed.
    pub fn push(&mut self, key: Key, position: u32)
        requires
            old(self).wf(),
        ensures
            final(self).wf(),
            final(self)@ == old(self)@.insert(
                key,
                Self::group_or_empty(old(self)@, key).push(position),
            ),
            final(self).keys@ == if old(self).has(key) {
                old(self).keys@
            } else {
                old(self).keys@.push(key)
            },
    {
        match self.find(&key) {
            Some(j) => {
                self.groups[j].push(position);
                assert forall|k: Key| self.has(k) == old(self).has(k) && self.slot_of(k) == old(
                    self,
                ).slot_of(k) by {}
            },
            None => {
                let j = self.keys.len();
                let mut group: Vec<u32> = Vec::new();
                group.push(position);
                self.keys.push(key);
                self.groups.push(group);
                match key {
                    None => {
                        self.null_slot = Some(j);
                    },
                    Some(v) => {
                        self.slots.insert(v, j);
                    },
                }
                assert forall|k: Key| #[trigger] self.has(k) == (old(self).has(k) || k == key)
                    && (old(self).has(k) ==> self.slot_of(k) == old(self).slot_of(k)) by {}
                assert(self.has(key) && self.slot_of(key) == j);
            },
        }
        assert(self@ =~= old(self)@.insert(
            key,
            Self::group_or_empty(old(self)@, key).push(position),
        ));
    }

    /// Appends `positions` to the group of `key`, opening the group if needed.
    pub fn append(&mut self, key: Key, positions: &Vec<u32>)
        requires
            old(self).wf(),
        ensures
            final(self).wf(),
            final(self)@ == old(self)@.insert(
                key,
                Self::group_or_empty(old(self)@, key) + positions@,
            ),
            final(self).keys@ == if old(self).has(key) {
                old(self).keys@
            } else {
                old(self).keys@.push(key)
            },
    {
        match self.find(&key) {
            Some(j) => {
                let mut i: usize = 0;
                while i < positions.len()
                    invariant
                        i <= positions.len(),
                        j < self.groups.len(),
                        self.keys == old(self).keys,
                        self.slots == old(self).slots,
                        self.null_slot == old(self).null_slot,
                        self.groups@.len() == old(self).groups@.len(),
                        forall|g: int|
                            0 <= g < self.groups.len() && g != j ==> self.groups[g] == old(
                                self,
                            ).groups[g],
                        self.groups[j as int]@ == old(self).groups[j as int]@
                            + positions@.subrange(0, i as int),
                    decreases positions.len() - i,
                {
                    self.groups[j].push(positions[i]);
                    assert(self.groups[j as int]@ =~= old(self).groups[j as int]@
                        + positions@.subrange(0, i + 1));
                    i += 1;
                }
                assert(positions@.subrange(0, positions@.len() as int) =~= positions@);
                assert forall|k: Key| self.has(k) == old(self).has(k) && self.slot_of(k) == old(
                    self,
                ).slot_of(k) by {}
                assert(self@ =~= old(self)@.insert(
                    key,
                    Self::group_or_empty(old(self)@, key) + positions@,
                ));
            },
            None => {
                let j = self.keys.len();
                self.keys.push(key);
                self.groups.push(copy_positions(positions));
                match key {
                    None => {
                        self.null_slot = Some(j);
                    },
                    Some(v) => {
                        self.slots.insert(v, j);
                    },
                }
                assert(Seq::<u32>::empty() + positions@ =~= positions@);
                assert forall|k: Key| #[trigger] self.has(k) == (old(self).has(k) || k == key)
                    && (old(self).has(k) ==> self.slot_of(k) == old(self).slot_of(k)) by {}
                assert(self.has(key) && self.slot_of(key) == j);
                assert(self@ =~= old(self)@.insert(
                    key,
                    Self::group_or_empty(old(self)@, key) + positions@,
                ));
            },
        }
    }
}

/// A key that occurs nowhere in a stretch has no positions there.
pub proof fn lemma_positions_absent(keys: Seq<Key>, k: Key, lo: int, hi: int)
    requires
        !occurs_in(keys, k, lo, hi),
    ensures
        positions_in(keys, k, lo, hi) == Seq::<u32>::empty(),
    decreases hi - lo,
{
    if hi > lo {
        assert(!occurs_in(keys, k, lo, hi - 1)) by {
            if occurs_in(keys, k, lo, hi - 1) {
                let p = choose|p: int| lo <= p < hi - 1 && keys[p] == k;
                assert(lo <= p < hi && keys[p] == k);
            }
        }
        lemma_positions_absent(keys, k, lo, hi - 1);
        assert(lo <= hi - 1 < hi);
    }
}

/// Lengthening a stretch by one position adds that position to the group of
/// the key found there and changes no other group.
pub proof fn lemma_index_step(keys: Seq<Key>, lo: int, hi: int)
    requires
        0 <= lo <= hi < keys.len(),
    ensures
        index_of_range(keys, lo, hi + 1) == index_of_range(keys, lo, hi).insert(
            keys[hi],
            HashIndex::group_or_empty(index_of_range(keys, lo, hi), keys[hi]).push(hi as u32),
        ),
{
    let before = index_of_range(keys, lo, hi);
    let after = index_of_range(keys, lo, hi + 1);
    let k0 = keys[hi];
    let expected = before.insert(k0, HashIndex::group_or_empty(before, k0).push(hi as u32));
    assert forall|k: Key| after.contains_key(k) == expected.contains_key(k) by {
        if occurs_in(keys, k, lo, hi + 1) {
            let p = choose|p: int| lo <= p < hi + 1 && keys[p] == k;
            if p < hi {
                assert(lo <= p < hi && keys[p] == k);
            }
        }
        if occurs_in(keys, k, lo, hi) {
            let p = choose|p: int| lo <= p < hi && keys[p] == k;
            assert(lo <= p < hi + 1 && keys[p] == k);
        }
        if k == k0 {
            assert(lo <= hi < hi + 1 && keys[hi] == k);
        }
    }
    assert forall|k: Key| after.contains_key(k) implies after[k] == expected[k] by {
        if k == k0 && !before.contains_key(k) {
            lemma_positions_absent(keys, k, lo, hi);
        }
    }
    assert(after =~= expected);
}

/// The positions of a key over two adjoining stretches are those of the
/// first stretch followed by those of the second.
pub proof fn lemma_positions_split(keys: Seq<Key>, k: Key, lo: int, mid: int, hi: int)
    requires
        lo <= mid <= hi,
    ensures
        positions_in(keys, k, lo, hi) == positions_in(keys, k, lo, mid) + positions_in(
            keys,
            k,
            mid,
            hi,
        ),
    decreases hi - mid,
{
    if hi > mid {
        lemma_positions_split(keys, k, lo, mid, hi - 1);
        let a = positions_in(keys, k, lo, mid);
        let b = positions_in(keys, k, mid, hi - 1);
        if keys[hi - 1] == k {
            assert((a + b).push((hi - 1) as u32) =~= a + b.push((hi - 1) as u32));
        }
    } else {
        assert(positions_in(keys, k, lo, mid) + Seq::<u32>::empty() =~= positions_in(
            keys,
            k,
            lo,
            mid,
        ));
    }
}

/// Builds the index of the stretch `lo..hi` of a key column, with positions
/// counted from the start of the column.
pub fn hashmap_slice_to_idxs(keys: &Vec<Key>, lo: usize, hi: usize) -> (idx: HashIndex)
    requires
        lo <= hi <= keys@.len() <= u32::MAX,
    ensures
        idx.wf(),
        idx@ == index_of_range(keys@, lo as int, hi as int),
        idx.keys@ == first_seen(keys@, lo as int, hi as int),
{
    let mut idx = HashIndex::new();
    let mut i: usize = lo;
    assert(idx@ =~= index_of_range(keys@, lo as int, lo as int));
    while i < hi
        invariant
            lo <= i <= hi <= keys@.len() <= u32::MAX,
            idx.wf(),
            idx@ == index_of_range(keys@, lo as int, i as int),
            idx.keys@ == first_seen(keys@, lo as int, i as int),
        decreases hi - i,
    {
        proof {
            lemma_index_step(keys@, lo as int, i as int);
            assert(idx.has(keys@[i as int]) == idx@.contains_key(keys@[i as int]));
        }
        idx.push(keys[i], i as u32);
        i += 1;
    }
    idx
}

/// Builds the index of a whole key column in one pass.
pub fn hashmap_primitive_to_idxs(keys: &Vec<Key>) -> (idx: HashIndex)
    requires
        keys@.len() <= u32::MAX,
    ensures
        idx.wf(),
        idx@ == index_of_keys(keys@),
        idx.keys@ == first_seen(keys@, 0, keys@.len() as int),
{
    hashmap_slice_to_idxs(keys, 0, keys.len())
}

/// Two indexes laid over one another: a key of either is a key of the result,
/// and its positions are those of the first index followed by those of the
/// second.
pub open spec fn merge_two(a: Map<Key, Seq<u32>>, b: Map<Key, Seq<u32>>) -> Map<Key, Seq<u32>> {
    Map::new(
        |k: Key| a.contains_key(k) || b.contains_key(k),
        |k: Key| HashIndex::group_or_empty(a, k) + HashIndex::group_or_empty(b, k),
    )
}

/// A list of indexes merged from left to right.
pub open spec fn merged(maps: Seq<Map<Key, Seq<u32>>>) -> Map<Key, Seq<u32>>
    decreases maps.len(),
{
    if maps.len() == 0 {
        Map::empty()
    } else {
        merge_two(merged(maps.drop_last()), maps.last())
    }
}

/// The views of a list of indexes.
pub open spec fn views_of(maps: Seq<HashIndex>) -> Seq<Map<Key, Seq<u32>>> {
    maps.map_values(|m: HashIndex| m@)
}

impl HashIndex {
    /// The part of the index held by its first `j` keys.
    pub open spec fn partial(&self, j: int) -> Map<Key, Seq<u32>> {
        Map::new(
            |k: Key| self.has(k) && self.slot_of(k) < j,
            |k: Key| self.groups[self.slot_of(k)]@,
        )
    }

    /// Moves every group of `other` under the same key of `self`, after the
    /// positions already there.
    pub fn absorb(&mut self, other: &HashIndex)
        requires
            old(self).wf(),
            other.wf(),
        ensures
            final(self).wf(),
            final(self)@ == merge_two(old(self)@, other@),
            final(self).keys@ == old(self).keys@ + unseen(
                other.keys@,
                old(self)@.dom(),
                other.keys.len() as int,
            ),
    {
        let mut j: usize = 0;
        assert(self@ =~= merge_two(old(self)@, other.partial(0)));
        assert(self.keys@ + Seq::<Key>::empty() =~= self.keys@);
        while j < other.keys.len()
            invariant
                j <= other.keys.len(),
                other.wf(),
                self.wf(),
                self@ == merge_two(old(self)@, other.partial(j as int)),
                self.keys@ == old(self).keys@ + unseen(other.keys@, old(self)@.dom(), j as int),
            decreases other.keys.len() - j,
        {
            let ghost before = self@;
            let ghost kj = other.keys[j as int];
            assert(other.has(kj) && other.slot_of(kj) == j);
            proof {
                assert(!other.partial(j as int).contains_key(kj));
                assert(self.has(kj) == before.contains_key(kj));
                assert(before.contains_key(kj) == old(self)@.dom().contains(kj));
                let kept = unseen(other.keys@, old(self)@.dom(), j as int);
                assert(old(self).keys@ + kept.push(kj) =~= (old(self).keys@ + kept).push(kj));
            }
            self.append(other.keys[j], &other.groups[j]);
            assert(self@ =~= merge_two(old(self)@, other.partial(j + 1))) by {
                assert(!other.partial(j as int).contains_key(kj));
                assert(Self::group_or_empty(before, kj) =~= Self::group_or_empty(old(self)@, kj));
                assert forall|k: Key|
                    other.partial(j + 1).contains_key(k) == (other.partial(j as int).contains_key(
                        k,
                    ) || k == kj) by {}
            }
            j += 1;
        }
        assert(other.partial(other.keys.len() as int) =~= other@);
    }
}

/// The keys of a list of indexes, index after index, each key where it first
/// stands.
pub open spec fn merged_keys(maps: Seq<HashIndex>) -> Seq<Key>
    decreases maps.len(),
{
    if maps.len() == 0 {
        Seq::empty()
    } else {
        merged_keys(maps.drop_last()) + unseen(
            maps.last().keys@,
            merged(views_of(maps.drop_last())).dom(),
            maps.last().keys.len() as int,
        )
    }
}

/// Combines local indexes into one by appending, under each key, the positions
/// of every index that holds the key, in the order of the list. The keys
/// stand in the order of the list, each where it first stands.
pub fn hashmaps_merge_idxs(maps: Vec<HashIndex>) -> (idx: HashIndex)
    requires
        forall|w: int| 0 <= w < maps.len() ==> (#[trigger] maps[w]).wf(),
    ensures
        idx.wf(),
        idx@ == merged(views_of(maps@)),
        idx.keys@ == merged_keys(maps@),
{
    let mut idx = HashIndex::new();
    let mut w: usize = 0;
    assert(views_of(maps@).subrange(0, 0) =~= Seq::empty());
    assert(maps@.subrange(0, 0) =~= Seq::empty());
    while w < maps.len()
        invariant
            w <= maps.len(),
            idx.wf(),
            forall|v: int| 0 <= v < maps.len() ==> (#[trigger] maps[v]).wf(),
            idx@ == merged(views_of(maps@).subrange(0, w as int)),
            idx.keys@ == merged_keys(maps@.subrange(0, w as int)),
        decreases maps.len() - w,
    {
        idx.absorb(&maps[w]);
        proof {
            let upto = views_of(maps@).subrange(0, w + 1);
            assert(upto.drop_last() =~= views_of(maps@).subrange(0, w as int));
            assert(upto.last() == maps[w as int]@);
            let some = maps@.subrange(0, w + 1);
            assert(some.drop_last() =~= maps@.subrange(0, w as int));
            assert(some.last() == maps[w as int]);
            assert(views_of(some.drop_last()) =~= views_of(maps@).subrange(0, w as int));
        }
        w += 1;
    }
    assert(views_of(maps@).subrange(0, maps.len() as int) =~= views_of(maps@));
    assert(maps@.subrange(0, maps.len() as int) =~= maps@);
    idx
}

/// Merging the indexes of two adjoining stretches gives the index of the
/// stretch they make up.
pub proof fn lemma_merge_adjoining(keys: Seq<Key>, lo: int, mid: int, hi: int)
    requires
        lo <= mid <= hi,
    ensures
        merge_two(index_of_range(keys, lo, mid), index_of_range(keys, mid, hi)) == index_of_range(
            keys,
            lo,
            hi,
        ),
{
    let a = index_of_range(keys, lo, mid);
    let b = index_of_range(keys, mid, hi);
    let whole = index_of_range(keys, lo, hi);
    assert forall|k: Key| merge_two(a, b).contains_key(k) == whole.contains_key(k) by {
        if occurs_in(keys, k, lo, mid) {
            let p = choose|p: int| lo <= p < mid && keys[p] == k;
            assert(lo <= p < hi && keys[p] == k);
        }
        if occurs_in(keys, k, mid, hi) {
            let p = choose|p: int| mid <= p < hi && keys[p] == k;
            assert(lo <= p < hi && keys[p] == k);
        }
        if occurs_in(keys, k, lo, hi) {
            let p = choose|p: int| lo <= p < hi && keys[p] == k;
            if p < mid {
                assert(lo <= p < mid && keys[p] == k);
            } else {
                assert(mid <= p < hi && keys[p] == k);
            }
        }
    }
    assert forall|k: Key| whole.contains_key(k) implies merge_two(a, b)[k] == whole[k] by {
        lemma_positions_split(keys, k, lo, mid, hi);
        if !a.contains_key(k) {
            lemma_positions_absent(keys, k, lo, mid);
        }
        if !b.contains_key(k) {
            lemma_positions_absent(keys, k, mid, hi);
        }
    }
    assert(merge_two(a, b) =~= whole);
}

/// Builds the local index of the stretch of worker `w`, in positions of the
/// whole column.
pub fn hashmap_worker_to_idxs(keys: &Vec<Key>, w: usize, size: usize) -> (idx: HashIndex)
    requires
        keys@.len() <= u32::MAX,
        w <= u32::MAX,
    ensures
        idx.wf(),
        idx@ == index_of_range(
            keys@,
            worker_lo(w as int, size as int, keys@.len() as int),
            worker_hi(w as int, size as int, keys@.len() as int),
        ),
        idx.keys@ == first_seen(
            keys@,
            worker_lo(w as int, size as int, keys@.len() as int),
            worker_hi(w as int, size as int, keys@.len() as int),
        ),
{
    let (lo, hi) = worker_bounds(keys.len(), w, size);
    hashmap_slice_to_idxs(keys, lo, hi)
}

/// Merging the local indexes of the first `n` workers gives the index of the
/// column up to where worker `n` starts.
pub proof fn lemma_merged_workers(
    keys: Seq<Key>,
    maps: Seq<Map<Key, Seq<u32>>>,
    size: int,
    n: int,
)
    requires
        0 <= n <= maps.len(),
        0 <= size,
        forall|w: int|
            0 <= w < n ==> #[trigger] maps[w] == index_of_range(
                keys,
                worker_lo(w, size, keys.len() as int),
                worker_hi(w, size, keys.len() as int),
            ),
    ensures
        merged(maps.subrange(0, n)) == index_of_range(
            keys,
            0,
            worker_lo(n, size, keys.len() as int),
        ),
    decreases n,
{
    let len = keys.len() as int;
    if n == 0 {
        lemma_worker_adjoining(0, size, len);
        assert(maps.subrange(0, 0) =~= Seq::empty());
        assert(index_of_range(keys, 0, 0) =~= Map::empty());
    } else {
        lemma_merged_workers(keys, maps, size, n - 1);
        lemma_worker_adjoining(n - 1, size, len);
        assert(maps.subrange(0, n).drop_last() =~= maps.subrange(0, n - 1));
        assert(maps.subrange(0, n).last() == maps[n - 1]);
        assert(0 <= worker_lo(n - 1, size, len)) by {
            assert((n - 1) * size >= 0) by (nonlinear_arith)
                requires
                    0 <= n - 1,
                    0 <= size,
            ;
        }
        lemma_merge_adjoining(
            keys,
            0,
            worker_lo(n - 1, size, len),
            worker_hi(n - 1, size, len),
        );
    }
}

/// The keys of the merged local indexes of the first `n` workers are the
/// distinct keys of the column up to where worker `n` starts, in the order in
/// which they first occur.
pub proof fn lemma_merged_worker_keys(keys: Seq<Key>, maps: Seq<HashIndex>, size: int, n: int)
    requires
        0 <= n <= maps.len(),
        0 <= size,
        forall|w: int|
            0 <= w < n ==> (#[trigger] maps[w])@ == index_of_range(
                keys,
                worker_lo(w, size, keys.len() as int),
                worker_hi(w, size, keys.len() as int),
            ) && maps[w].keys@ == first_seen(
                keys,
                worker_lo(w, size, keys.len() as int),
                worker_hi(w, size, keys.len() as int),
            ),
    ensures
        merged_keys(maps.subrange(0, n)) == first_seen(
            keys,
            0,
            worker_lo(n, size, keys.len() as int),
        ),
    decreases n,
{
    let len = keys.len() as int;
    if n == 0 {
        lemma_worker_adjoining(0, size, len);
        assert(maps.subrange(0, 0) =~= Seq::empty());
    } else {
        lemma_merged_worker_keys(keys, maps, size, n - 1);
        lemma_worker_adjoining(n - 1, size, len);
        let upto = maps.subrange(0, n);
        assert(upto.drop_last() =~= maps.subrange(0, n - 1));
        assert(upto.last() == maps[n - 1]);
        let views = views_of(maps);
        assert(views_of(upto.drop_last()) =~= views.subrange(0, n - 1));
        assert forall|w: int| 0 <= w < n - 1 implies #[trigger] views[w] == index_of_range(
            keys,
            worker_lo(w, size, len),
            worker_hi(w, size, len),
        ) by {
            assert(views[w] == maps[w]@);
        }
        lemma_merged_workers(keys, views, size, n - 1);
        let lo = worker_lo(n - 1, size, len);
        let hi = worker_hi(n - 1, size, len);
        assert(0 <= lo) by {
            assert((n - 1) * size >= 0) by (nonlinear_arith)
                requires
                    0 <= n - 1,
                    0 <= size,
            ;
        }
        assert(index_of_range(keys, 0, lo).dom() =~= seen_in(keys, 0, lo));
        lemma_first_seen_split(keys, 0, lo, hi);
    }
}

/// Builds the index of a key column: in one pass where the column is short,
/// otherwise from the local indexes of [`WORKERS`] stretches, built side by
/// side and then merged. Either way the keys stand in the order in which
/// they first occur in the column.
pub fn hashmap_primitive_to_idxs_par(keys: &Vec<Key>) -> (idx: HashIndex)
    requires
        keys@.len() <= u32::MAX,
    ensures
        idx.wf(),
        idx@ == index_of_keys(keys@),
        idx.keys@ == first_seen(keys@, 0, keys@.len() as int),
{
    let len = keys.len();
    if len > SMALL_THRESHOLD {
        let size = len / WORKERS + 1;
        let build = (|w: usize| -> (idx: HashIndex)
            requires
                WORKERS > w,
            ensures
                idx.wf(),
                idx@ == index_of_range(
                    keys@,
                    worker_lo(w as int, size as int, keys@.len() as int),
                    worker_hi(w as int, size as int, keys@.len() as int),
                ),
                idx.keys@ == first_seen(
                    keys@,
                    worker_lo(w as int, size as int, keys@.len() as int),
                    worker_hi(w as int, size as int, keys@.len() as int),
                ),
            {
                hashmap_worker_to_idxs(keys, w, size)
            });
        let maps = par_map_range(WORKERS, build);
        proof {
            let ks = keys@;
            let views = views_of(maps@);
            assert(views.subrange(0, WORKERS as int) =~= views);
            assert(maps@.subrange(0, WORKERS as int) =~= maps@);
            lemma_merged_workers(ks, views, size as int, WORKERS as int);
            lemma_merged_worker_keys(ks, maps@, size as int, WORKERS as int);
            assert(WORKERS * size > len) by (nonlinear_arith)
                requires
                    size == len / WORKERS + 1,
                    WORKERS == 24,
            ;
        }
        hashmaps_merge_idxs(maps)
    } else {
        hashmap_primitive_to_idxs(keys)
    }
}

/// What the positions of a key are: each lies in the stretch and carries the
/// key, they ascend, and no position that carries the key is missing.
pub proof fn lemma_positions_exact(keys: Seq<Key>, k: Key, lo: int, hi: int)
    requires
        0 <= lo <= hi <= keys.len() <= u32::MAX,
    ensures
        forall|i: int|
            0 <= i < positions_in(keys, k, lo, hi).len() ==> lo <= (#[trigger] positions_in(
                keys,
                k,
                lo,
                hi,
            )[i]) < hi && keys[positions_in(keys, k, lo, hi)[i] as int] == k,
        forall|i: int, j: int|
            0 <= i < j < positions_in(keys, k, lo, hi).len() ==> (#[trigger] positions_in(
                keys,
                k,
                lo,
                hi,
            )[i]) < (#[trigger] positions_in(keys, k, lo, hi)[j]),
        forall|p: int|
            lo <= p < hi && #[trigger] keys[p] == k ==> positions_in(keys, k, lo, hi).contains(
                p as u32,
            ),
    decreases hi - lo,
{
    if hi > lo {
        lemma_positions_exact(keys, k, lo, hi - 1);
        let rest = positions_in(keys, k, lo, hi - 1);
        let all = positions_in(keys, k, lo, hi);
        if keys[hi - 1] == k {
            assert(all == rest.push((hi - 1) as u32));
            assert(all[rest.len() as int] == (hi - 1) as u32);
            assert forall|p: int| lo <= p < hi && #[trigger] keys[p] == k implies all.contains(
                p as u32,
            ) by {
                if p < hi - 1 {
                    let i = choose|i: int| 0 <= i < rest.len() && rest[i] == p as u32;
                    assert(all[i] == p as u32);
                } else {
                    assert(all[rest.len() as int] == p as u32);
                }
            }
        }
    }
}

/// The index is complete: every position is listed under the key it carries.
pub proof fn index_complete(keys: Seq<Key>, i: int)
    requires
        0 <= i < keys.len() <= u32::MAX,
    ensures
        index_of_keys(keys).contains_key(keys[i]),
        index_of_keys(keys)[keys[i]].contains(i as u32),
{
    assert(occurs_in(keys, keys[i], 0, keys.len() as int));
    lemma_positions_exact(keys, keys[i], 0, keys.len() as int);
}

/// The positions that the first `hi` indexes of a list hold under `k`, index
/// after index.
pub open spec fn gathered(maps: Seq<Map<Key, Seq<u32>>>, k: Key, hi: int) -> Seq<u32>
    decreases hi,
{
    if hi <= 0 {
        Seq::empty()
    } else {
        gathered(maps, k, hi - 1) + HashIndex::group_or_empty(maps[hi - 1], k)
    }
}

/// Whether one of the first `hi` indexes of a list holds `k`.
pub open spec fn held_by_some(maps: Seq<Map<Key, Seq<u32>>>, k: Key, hi: int) -> bool {
    exists|w: int| 0 <= w < hi && (#[trigger] maps[w]).contains_key(k)
}

/// The merge of a list of indexes holds a key exactly where one of them
/// does, and under it what they hold, index after index.
pub proof fn lemma_merged_gathered(maps: Seq<Map<Key, Seq<u32>>>, k: Key, hi: int)
    requires
        0 <= hi <= maps.len(),
    ensures
        merged(maps.subrange(0, hi)).contains_key(k) <==> held_by_some(maps, k, hi),
        merged(maps.subrange(0, hi)).contains_key(k) ==> merged(maps.subrange(0, hi))[k]
            == gathered(maps, k, hi),
        !held_by_some(maps, k, hi) ==> gathered(maps, k, hi) == Seq::<u32>::empty(),
    decreases hi,
{
    if hi == 0 {
        assert(maps.subrange(0, 0) =~= Seq::empty());
    } else {
        lemma_merged_gathered(maps, k, hi - 1);
        let upto = maps.subrange(0, hi);
        assert(upto.drop_last() =~= maps.subrange(0, hi - 1));
        assert(upto.last() == maps[hi - 1]);
        if held_by_some(maps, k, hi - 1) {
            let w = choose|w: int| 0 <= w < hi - 1 && (#[trigger] maps[w]).contains_key(k);
            assert(0 <= w < hi && maps[w].contains_key(k));
        }
        if maps[hi - 1].contains_key(k) {
            assert(0 <= hi - 1 < hi && maps[hi - 1].contains_key(k));
        }
        if held_by_some(maps, k, hi) {
            let w = choose|w: int| 0 <= w < hi && (#[trigger] maps[w]).contains_key(k);
            if w < hi - 1 {
                assert(0 <= w < hi - 1 && maps[w].contains_key(k));
            }
        }
        assert(Seq::<u32>::empty() + HashIndex::group_or_empty(maps[hi - 1], k)
            =~= HashIndex::group_or_empty(maps[hi - 1], k));
        assert(gathered(maps, k, hi - 1) + Seq::<u32>::empty() =~= gathered(maps, k, hi - 1));
    }
}

/// Collects what every index of a list holds under one key, index after
/// index.
pub fn gather_key(maps: &Vec<HashIndex>, key: &Key) -> (out: Vec<u32>)
    requires
        forall|w: int| 0 <= w < maps.len() ==> (#[trigger] maps[w]).wf(),
    ensures
        out@ == gathered(views_of(maps@), *key, maps.len() as int),
{
    let mut out: Vec<u32> = Vec::new();
    let mut w: usize = 0;
    while w < maps.len()
        invariant
            w <= maps.len(),
            forall|v: int| 0 <= v < maps.len() ==> (#[trigger] maps[v]).wf(),
            out@ == gathered(views_of(maps@), *key, w as int),
        decreases maps.len() - w,
    {
        let ghost before = out@;
        assert(views_of(maps@)[w as int] == maps[w as int]@);
        match maps[w].get(key) {
            None => {
                assert(before + Seq::<u32>::empty() =~= before);
            },
            Some(group) => {
                let mut i: usize = 0;
                while i < group.len()
                    invariant
                        i <= group.len(),
                        out@ == before + group@.subrange(0, i as int),
                    decreases group.len() - i,
                {
                    out.push(group[i]);
                    assert(out@ =~= before + group@.subrange(0, i + 1));
                    i += 1;
                }
                assert(group@.subrange(0, group.len() as int) =~= group@);
            },
        }
        w += 1;
    }
    out
}

/// Combines local indexes into one as [`hashmaps_merge_idxs`] does, by
/// another way: the keys of all indexes are listed first, and then what the
/// indexes hold is gathered key by key, the keys side by side.
pub fn hashmaps_merge_vec_test(maps: Vec<HashIndex>) -> (idx: HashIndex)
    requires
        forall|w: int| 0 <= w < maps.len() ==> (#[trigger] maps[w]).wf(),
    ensures
        idx.wf(),
        idx@ == merged(views_of(maps@)),
        idx.keys@ == merged_keys(maps@),
{
    let ghost views = views_of(maps@);
    let mut seen = LastIndex::new();
    let mut keys: Vec<Key> = Vec::new();
    let mut w: usize = 0;
    while w < maps.len()
        invariant
            w <= maps.len(),
            views == views_of(maps@),
            views.len() == maps.len(),
            forall|v: int| 0 <= v < maps.len() ==> (#[trigger] maps[v]).wf(),
            seen.wf(),
            forall|k: Key| #[trigger] seen@.contains_key(k) <==> held_by_some(views, k, w as int),
            forall|k: Key| seen@.contains_key(k) <==> #[trigger] keys@.contains(k),
            keys@.no_duplicates(),
            keys@ == merged_keys(maps@.subrange(0, w as int)),
        decreases maps.len() - w,
    {
        let map = &maps[w];
        let mut j: usize = 0;
        assert(views[w as int] == map@);
        let ghost held = merged(views.subrange(0, w as int)).dom();
        let ghost start = keys@;
        proof {
            assert(start + Seq::<Key>::empty() =~= start);
            assert forall|k: Key| held.contains(k) <==> held_by_some(views, k, w as int) by {
                lemma_merged_gathered(views, k, w as int);
            }
        }
        while j < map.keys.len()
            invariant
                j <= map.keys.len(),
                w < maps.len(),
                views.len() == maps.len(),
                map.wf(),
                views[w as int] == map@,
                seen.wf(),
                forall|k: Key|
                    #[trigger] seen@.contains_key(k) <==> held_by_some(views, k, w as int) || (
                    map.has(k) && map.slot_of(k) < j),
                forall|k: Key| seen@.contains_key(k) <==> #[trigger] keys@.contains(k),
                keys@.no_duplicates(),
                forall|k: Key| held.contains(k) <==> held_by_some(views, k, w as int),
                keys@ == start + unseen(map.keys@, held, j as int),
            decreases map.keys.len() - j,
        {
            let key = map.keys[j];
            assert(map.has(key) && map.slot_of(key) == j);
            let ghost seen_before = seen@;
            proof {
                assert(seen@.contains_key(key) <==> held.contains(key));
                let kept = unseen(map.keys@, held, j as int);
                assert(start + kept.push(key) =~= (start + kept).push(key));
            }
            if !seen.contains_key(&key) {
                let ghost before = keys@;
                seen.insert(key, 0);
                keys.push(key);
                proof {
                    assert forall|k: Key| seen@.contains_key(k) <==> #[trigger] keys@.contains(
                        k,
                    ) by {
                        if before.contains(k) {
                            let i = choose|i: int| 0 <= i < before.len() && before[i] == k;
                            assert(keys@[i] == k);
                        }
                        if k == key {
                            assert(keys@[before.len() as int] == k);
                        }
                        if keys@.contains(k) {
                            let i = choose|i: int| 0 <= i < keys@.len() && keys@[i] == k;
                            if i < before.len() {
                                assert(before[i] == k);
                            }
                        }
                    }
                    assert(keys@.no_duplicates()) by {
                        assert forall|a: int, b: int|
                            0 <= a < keys@.len() && 0 <= b < keys@.len() && a != b implies keys@[a]
                            != keys@[b] by {
                            if a < before.len() && b < before.len() {
                                assert(before[a] != before[b]);
                            } else if a < before.len() {
                                assert(before.contains(before[a]));
                            } else if b < before.len() {
                                assert(before.contains(before[b]));
                            }
                        }
                    }
                }
            }
            proof {
                assert forall|k: Key|
                    #[trigger] seen@.contains_key(k) <==> held_by_some(views, k, w as int) || (
                    map.has(k) && map.slot_of(k) < j + 1) by {
                    if map.has(k) && map.slot_of(k) == j {
                        assert(map.keys[map.slot_of(k)] == k);
                    }
                    assert(seen_before.contains_key(k) <==> held_by_some(views, k, w as int) || (
                    map.has(k) && map.slot_of(k) < j));
                    assert(seen@.contains_key(k) <==> seen_before.contains_key(k) || k == key);
                }
            }
            j += 1;
        }
        proof {
            assert forall|k: Key| #[trigger] seen@.contains_key(k) <==> held_by_some(
                views,
                k,
                w + 1,
            ) by {
                if held_by_some(views, k, w as int) {
                    let v = choose|v: int| 0 <= v < w && (#[trigger] views[v]).contains_key(k);
                    assert(0 <= v < w + 1 && views[v].contains_key(k));
                }
                if map.has(k) {
                    assert(views[w as int].contains_key(k));
                }
                if held_by_some(views, k, w + 1) {
                    let v = choose|v: int| 0 <= v < w + 1 && (#[trigger] views[v]).contains_key(k);
                    if v < w {
                        assert(0 <= v < w && views[v].contains_key(k));
                    }
                }
            }
            let upto = maps@.subrange(0, w + 1);
            assert(upto.drop_last() =~= maps@.subrange(0, w as int));
            assert(upto.last() == maps[w as int]);
            assert(views_of(upto.drop_last()) =~= views.subrange(0, w as int));
        }
        w += 1;
    }
    assert(maps@.subrange(0, maps.len() as int) =~= maps@);
    let gather = (|j: usize| -> (group: Vec<u32>)
        requires
            keys.len() > j,
        ensures
            group@ == gathered(views_of(maps@), keys[j as int], maps.len() as int),
        {
            gather_key(&maps, &keys[j])
        });
    let groups = par_map_range(keys.len(), gather);
    let mut idx = HashIndex::new();
    let mut j: usize = 0;
    while j < keys.len()
        invariant
            j <= keys.len(),
            groups.len() == keys.len(),
            views == views_of(maps@),
            keys@.no_duplicates(),
            forall|i: int|
                0 <= i < keys.len() ==> (#[trigger] groups[i])@ == gathered(
                    views,
                    keys[i],
                    maps.len() as int,
                ),
            idx.wf(),
            idx.keys@ == keys@.subrange(0, j as int),
            forall|k: Key| idx@.contains_key(k) <==> keys@.subrange(0, j as int).contains(k),
            forall|k: Key|
                idx@.contains_key(k) ==> #[trigger] idx@[k] == gathered(
                    views,
                    k,
                    maps.len() as int,
                ),
        decreases keys.len() - j,
    {
        let ghost before = idx@;
        proof {
            if before.contains_key(keys[j as int]) {
                let upto = keys@.subrange(0, j as int);
                let i = choose|i: int| 0 <= i < upto.len() && upto[i] == keys[j as int];
                assert(keys@[i] == keys@[j as int]);
            }
            assert(Seq::<u32>::empty() + groups[j as int]@ =~= groups[j as int]@);
            assert(idx.has(keys[j as int]) == before.contains_key(keys[j as int]));
            assert(keys@.subrange(0, j as int).push(keys[j as int]) =~= keys@.subrange(0, j + 1));
        }
        idx.append(keys[j], &groups[j]);
        proof {
            let upto = keys@.subrange(0, j as int);
            let next = keys@.subrange(0, j + 1);
            assert forall|k: Key| idx@.contains_key(k) <==> next.contains(k) by {
                if upto.contains(k) {
                    let i = choose|i: int| 0 <= i < upto.len() && upto[i] == k;
                    assert(next[i] == k);
                }
                if k == keys[j as int] {
                    assert(next[j as int] == k);
                }
                if next.contains(k) {
                    let i = choose|i: int| 0 <= i < next.len() && next[i] == k;
                    if i < j {
                        assert(upto[i] == k);
                    }
                }
            }
        }
        j += 1;
    }
    proof {
        assert(keys@.subrange(0, keys.len() as int) =~= keys@);
        assert(views.subrange(0, views.len() as int) =~= views);
        assert forall|k: Key| idx@.contains_key(k) <==> merged(views).contains_key(k) by {
            lemma_merged_gathered(views, k, views.len() as int);
        }
        assert forall|k: Key| idx@.contains_key(k) implies idx@[k] == merged(views)[k] by {
            lemma_merged_gathered(views, k, views.len() as int);
        }
        assert(idx@ =~= merged(views));
    }
    idx
}

/// The keys of an index, in the order in which they were first added, and
/// under each what the index holds.
pub fn hashmap_to_kv(map: &HashIndex) -> (r: (Vec<Key>, Vec<&Vec<u32>>))
    requires
        map.wf(),
    ensures
        r.0@ == map.keys@,
        r.1.len() == r.0.len(),
        forall|j: int|
            0 <= j < r.0.len() ==> map@.contains_key(#[trigger] r.0[j]) && r.1[j]@ == map@[r.0[j]],
{
    let mut keys: Vec<Key> = Vec::new();
    let mut values: Vec<&Vec<u32>> = Vec::new();
    let mut j: usize = 0;
    while j < map.keys.len()
        invariant
            j <= map.keys.len(),
            map.wf(),
            keys@ == map.keys@.subrange(0, j as int),
            values.len() == j,
            forall|i: int|
                0 <= i < j ==> map@.contains_key(#[trigger] map.keys[i]) && values[i]@
                    == map@[map.keys[i]],
        decreases map.keys.len() - j,
    {
        assert(map.has(map.keys[j as int]) && map.slot_of(map.keys[j as int]) == j);
        keys.push(map.keys[j]);
        values.push(&map.groups[j]);
        assert(keys@ =~= map.keys@.subrange(0, j + 1));
        j += 1;
    }
    assert(map.keys@.subrange(0, map.keys.len() as int) =~= map.keys@);
    (keys, values)
}

/// Pairs names with values, position by position, as far as both lists go.
pub fn hashmap_from_vecs<V>(keys: Vec<&String>, values: Vec<V>) -> (pairs: Vec<(String, V)>)
    ensures
        pairs.len() == if keys.len() <= values.len() {
            keys.len()
        } else {
            values.len()
        },
        forall|i: int|
            0 <= i < pairs.len() ==> (#[trigger] pairs[i]).0@ == keys[i]@ && pairs[i].1
                == values[i],
{
    let n = if keys.len() <= values.len() {
        keys.len()
    } else {
        values.len()
    };
    let mut values = values;
    let ghost values0 = values@;
    values.truncate(n);
    let mut reversed: Vec<V> = Vec::new();
    while values.len() > 0
        invariant
            values.len() + reversed.len() == n,
            n <= values0.len(),
            forall|i: int| 0 <= i < values.len() ==> #[trigger] values[i] == values0[i],
            forall|i: int|
                0 <= i < reversed.len() ==> #[trigger] reversed[i] == values0[n - 1 - i],
        decreases values.len(),
    {
        match values.pop() {
            Some(v) => {
                reversed.push(v);
            },
            None => {},
        }
    }
    let mut pairs: Vec<(String, V)> = Vec::new();
    while reversed.len() > 0
        invariant
            pairs.len() + reversed.len() == n,
            n <= keys.len(),
            n <= values0.len(),
            forall|i: int|
                0 <= i < reversed.len() ==> #[trigger] reversed[i] == values0[n - 1 - i],
            forall|i: int|
                0 <= i < pairs.len() ==> (#[trigger] pairs[i]).0@ == keys[i]@ && pairs[i].1
                    == values0[i],
        decreases reversed.len(),
    {
        let i = pairs.len();
        match reversed.pop() {
            Some(v) => {
                pairs.push((keys[i].clone(), v));
            },
            None => {},
        }
    }
    pairs
}

} // verus!
