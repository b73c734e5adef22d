//! Storage of the active chunks: a dense sequence of slots, and an index from each
//! position to the slot that holds it.

use crate::coords::CoordVec;
use crate::integer::ReasonableIntegerLike;
use crate::slots::{
    active_map, compact, distinct_keys, filled, holds, lemma_active_at, lemma_clear,
    lemma_compact, lemma_fill, lemma_push, lemma_replace, slot_of, Slot,
};
use std::collections::HashMap;
use vstd::prelude::*;

verus! {

/// A chunk and the position it is stored under.
pub struct Container<const N: usize, C, DT = u8> where DT: ReasonableIntegerLike {
    pub chunk: C,
    pub position: CoordVec<N, DT>,
}

/// Why the arena did not take a chunk.
#[derive(Debug, Clone, Copy, PartialEq, Eq, Structural)]
pub enum ArenaError {
    /// The position already holds a chunk.
    Duplicate,
}

/// A number that equal positions share, folded from the depth and the components.
pub open spec fn fold_key(pos: Seq<nat>, depth: nat) -> nat
    decreases pos.len(),
{
    if pos.len() == 0 {
        depth % 0x1_0000_0000_0000_0000
    } else {
        (fold_key(pos.drop_last(), depth) * 31 + pos.last()) % 0x1_0000_0000_0000_0000
    }
}

/// The key that a position is indexed under.
pub open spec fn key_of<const N: usize, DT: ReasonableIntegerLike>(c: CoordVec<N, DT>) -> u64 {
    fold_key(c@.pos, c@.depth) as u64
}

/// The key that `c` is indexed under.
fn key<const N: usize, DT: ReasonableIntegerLike>(c: CoordVec<N, DT>) -> (r: u64)
    requires
        c.wf(),
    ensures
        r == key_of(c),
{
    let mut h: u64 = c.depth as u64;
    let mut i: usize = 0;
    assert(c@.pos.take(0) =~= Seq::<nat>::empty());
    while i < N
        invariant
            i <= N,
            c.wf(),
            h == fold_key(c@.pos.take(i as int), c@.depth),
        decreases N - i,
    {
        let x = c.axis(i);
        proof {
            let upto = c@.pos.take(i + 1);
            assert(upto.drop_last() =~= c@.pos.take(i as int));
            assert(upto.last() == c@.pos[i as int]);
        }
        let mixed = ((h as u128) * 31 + (x as u128)) % 0x1_0000_0000_0000_0000u128;
        h = mixed as u64;
        i += 1;
    }
    assert(c@.pos.take(N as int) =~= c@.pos);
    h
}

/// What a slot of the storage stands for.
pub open spec fn entry_of<const N: usize, C, DT: ReasonableIntegerLike>(
    e: Option<Container<N, C, DT>>,
) -> Option<Slot<CoordVec<N, DT>, C>> {
    match e {
        Some(c) => filled(c.position, c.chunk),
        None => None,
    }
}

/// The index lists slot `i` under the key `k`.
spec fn listed(index: Map<u64, Vec<usize>>, k: u64, i: usize) -> bool {
    index.contains_key(k) && index[k]@.contains(i)
}

/// No bucket of the index is empty or lists a slot twice.
spec fn buckets_ok(index: Map<u64, Vec<usize>>) -> bool {
    forall|k: u64| #[trigger]
        index.contains_key(k) ==> index[k]@.no_duplicates() && index[k]@.len() > 0
}

/// The index lists exactly the slots that hold a chunk, each under the key of its position.
spec fn index_ok<const N: usize, C, DT: ReasonableIntegerLike>(
    slots: Seq<Option<Container<N, C, DT>>>,
    index: Map<u64, Vec<usize>>,
) -> bool {
    &&& forall|i: int|
        0 <= i < slots.len() && (#[trigger] slots[i]) is Some ==> listed(
            index,
            key_of(slots[i]->0.position),
            i as usize,
        )
    &&& forall|k: u64, i: usize| #[trigger]
        listed(index, k, i) ==> i < slots.len() && slots[i as int] is Some && key_of(
            slots[i as int]->0.position,
        ) == k
    &&& buckets_ok(index)
}

/// The free list names exactly the empty slots, each once.
spec fn free_ok<const N: usize, C, DT: ReasonableIntegerLike>(
    slots: Seq<Option<Container<N, C, DT>>>,
    free: Seq<usize>,
) -> bool {
    &&& forall|a: int|
        0 <= a < free.len() ==> (#[trigger] free[a]) < slots.len() && slots[free[a] as int] is None
    &&& free.no_duplicates()
    &&& forall|i: int|
        0 <= i < slots.len() && (#[trigger] slots[i]) is None ==> free.contains(i as usize)
}

/// Every position stored is well formed.
spec fn positions_ok<const N: usize, C, DT: ReasonableIntegerLike>(
    slots: Seq<Option<Container<N, C, DT>>>,
) -> bool {
    forall|i: int| 0 <= i < slots.len() && (#[trigger] slots[i]) is Some ==> slots[i]->0.position.wf()
}

/// Lists slot `slot` under the key `k`.
fn index_add(index: &mut HashMap<u64, Vec<usize>>, k: u64, slot: usize)
    requires
        buckets_ok(old(index)@),
        !listed(old(index)@, k, slot),
    ensures
        buckets_ok(final(index)@),
        forall|k2: u64, i2: usize|
            listed(final(index)@, k2, i2) <==> listed(old(index)@, k2, i2) || (k2 == k && i2
                == slot),
{
    let ghost before = index@;
    let mut bucket = match index.remove(&k) {
        Some(b) => b,
        None => Vec::new(),
    };
    let ghost was = bucket@;
    bucket.push(slot);
    assert(bucket@.last() == slot);
    assert(bucket@.drop_last() =~= was);
    assert(bucket@.no_duplicates()) by {
        assert forall|a: int, b: int|
            0 <= a < bucket@.len() && 0 <= b < bucket@.len() && a != b implies bucket@[a]
            != bucket@[b] by {
            if a < was.len() {
                assert(was[a] == bucket@[a]);
                assert(was.contains(was[a]));
            }
            if b < was.len() {
                assert(was[b] == bucket@[b]);
                assert(was.contains(was[b]));
            }
        }
    }
    index.insert(k, bucket);
    assert forall|k2: u64, i2: usize|
        listed(index@, k2, i2) <==> listed(before, k2, i2) || (k2 == k && i2 == slot) by {
        if k2 == k {
            if index@[k]@.contains(i2) {
                let a = choose|a: int| 0 <= a < index@[k]@.len() && index@[k]@[a] == i2;
                if a < was.len() {
                    assert(was[a] == i2);
                }
            }
            if listed(before, k2, i2) {
                let a = choose|a: int| 0 <= a < was.len() && was[a] == i2;
                assert(index@[k]@[a] == i2);
            }
            assert(index@[k]@[was.len() as int] == slot);
        }
    }
}

/// Takes slot `slot` out of the list under the key `k`.
fn index_drop(index: &mut HashMap<u64, Vec<usize>>, k: u64, slot: usize)
    requires
        buckets_ok(old(index)@),
        listed(old(index)@, k, slot),
    ensures
        buckets_ok(final(index)@),
        forall|k2: u64, i2: usize|
            listed(final(index)@, k2, i2) <==> listed(old(index)@, k2, i2) && !(k2 == k && i2
                == slot),
{
    let ghost before = index@;
    let mut bucket = match index.remove(&k) {
        Some(b) => b,
        None => Vec::new(),
    };
    let ghost was = bucket@;
    let mut at: usize = 0;
    while at < bucket.len() && bucket[at] != slot
        invariant
            at <= bucket.len(),
            bucket@ == was,
            was.contains(slot),
            forall|a: int| 0 <= a < at ==> was[a] != slot,
        decreases bucket.len() - at,
    {
        at += 1;
    }
    assert(at < bucket.len()) by {
        let a = choose|a: int| 0 <= a < was.len() && was[a] == slot;
        assert(was[a] == slot);
    }
    bucket.remove(at);
    let ghost now = bucket@;
    assert(now == was.remove(at as int));
    assert(now.no_duplicates()) by {
        assert forall|a: int, b: int| 0 <= a < now.len() && 0 <= b < now.len() && a != b implies now[a]
            != now[b] by {
            let a2 = if a < at { a } else { a + 1 };
            let b2 = if b < at { b } else { b + 1 };
            assert(now[a] == was[a2]);
            assert(now[b] == was[b2]);
        }
    }
    assert forall|i2: usize| now.contains(i2) <==> was.contains(i2) && i2 != slot by {
        if now.contains(i2) {
            let a = choose|a: int| 0 <= a < now.len() && now[a] == i2;
            let a2 = if a < at { a } else { a + 1 };
            assert(was[a2] == i2);
            assert(a2 != at);
        }
        if was.contains(i2) && i2 != slot {
            let a = choose|a: int| 0 <= a < was.len() && was[a] == i2;
            let a2 = if a < at { a } else { a - 1 };
            assert(now[a2] == i2);
        }
    }
    if bucket.len() > 0 {
        index.insert(k, bucket);
    }
    assert forall|k2: u64, i2: usize|
        listed(index@, k2, i2) <==> listed(before, k2, i2) && !(k2 == k && i2 == slot) by {
        if k2 == k && now.len() == 0 {
            assert(!now.contains(i2));
        }
    }
}

/// The active chunks, each under its position.
pub struct Arena<const N: usize, C, DT = u8> where DT: ReasonableIntegerLike {
    slots: Vec<Option<Container<N, C, DT>>>,
    free: Vec<usize>,
    index: HashMap<u64, Vec<usize>>,
}

impl<const N: usize, C, DT> View for Arena<N, C, DT> where DT: ReasonableIntegerLike {
    type V = Map<CoordVec<N, DT>, C>;

    /// The chunk of each active position.
    open spec fn view(&self) -> Map<CoordVec<N, DT>, C> {
        active_map(self.entries())
    }
}

impl<const N: usize, C, DT> Arena<N, C, DT> where DT: ReasonableIntegerLike {
    /// The slots in storage order: each is empty or holds a position and its chunk.
    pub closed spec fn entries(&self) -> Seq<Option<Slot<CoordVec<N, DT>, C>>> {
        self.slots@.map_values(|e: Option<Container<N, C, DT>>| entry_of(e))
    }

    /// The empty slots, the one emptied last at the end.
    pub closed spec fn vacant(&self) -> Seq<usize> {
        self.free@
    }

    /// The slots, the free list and the index agree.
    pub closed spec fn wf(&self) -> bool {
        &&& positions_ok(self.slots@)
        &&& distinct_keys(self.entries())
        &&& free_ok(self.slots@, self.free@)
        &&& index_ok(self.slots@, self.index@)
    }

    /// In a well-formed arena no position is held twice, and every position is well formed.
    pub proof fn lemma_wf(&self)
        requires
            self.wf(),
        ensures
            distinct_keys(self.entries()),
            forall|i: int|
                0 <= i < self.entries().len() && (#[trigger] self.entries()[i]) is Some
                    ==> self.entries()[i]->0.key.wf(),
            forall|c: CoordVec<N, DT>| #[trigger] self@.contains_key(c) ==> c.wf(),
            self.vacant().no_duplicates(),
            self.entries().len() <= usize::MAX,
            forall|i: int|
                0 <= i < self.entries().len() ==> ((#[trigger] self.entries()[i]) is None
                    <==> self.vacant().contains(i as usize)),
    {
        assert(self.entries().len() == self.slots.len());
        assert forall|i: int|
            0 <= i < self.entries().len() implies ((#[trigger] self.entries()[i]) is None
            <==> self.vacant().contains(i as usize)) by {
            assert(self.entries()[i] == entry_of(self.slots@[i]));
            if self.vacant().contains(i as usize) {
                let a = choose|a: int| 0 <= a < self.free@.len() && self.free@[a] == i as usize;
                assert(self.slots@[self.free@[a] as int] is None);
            }
        }
        assert forall|i: int|
            0 <= i < self.entries().len() && (
            #[trigger] self.entries()[i]) is Some implies self.entries()[i]->0.key.wf() by {
            assert(self.slots@[i] is Some);
        }
        assert forall|c: CoordVec<N, DT>| #[trigger] self@.contains_key(c) implies c.wf() by {
            let i = slot_of(self.entries(), c);
            assert(holds(self.entries(), i, c));
        }
    }

    /// An arena that holds nothing.
    pub fn new() -> (r: Self)
        ensures
            r.wf(),
            r.entries() == Seq::<Option<Slot<CoordVec<N, DT>, C>>>::empty(),
            r.vacant() == Seq::<usize>::empty(),
            r@ == Map::<CoordVec<N, DT>, C>::empty(),
    {
        let r = Arena { slots: Vec::new(), free: Vec::new(), index: HashMap::new() };
        assert(r.entries() =~= Seq::empty());
        assert(r@ =~= Map::empty());
        r
    }

    /// An arena that holds nothing, with room for `capacity` chunks.
    pub fn with_capacity(capacity: usize) -> (r: Self)
        ensures
            r.wf(),
            r.entries() == Seq::<Option<Slot<CoordVec<N, DT>, C>>>::empty(),
            r.vacant() == Seq::<usize>::empty(),
            r@ == Map::<CoordVec<N, DT>, C>::empty(),
    {
        let r = Arena {
            slots: Vec::with_capacity(capacity),
            free: Vec::new(),
            index: HashMap::with_capacity(capacity),
        };
        assert(r.entries() =~= Seq::empty());
        assert(r@ =~= Map::empty());
        r
    }

    /// The number of slots, empty ones included.
    pub fn slot_count(&self) -> (r: usize)
        ensures
            r == self.entries().len(),
    {
        self.slots.len()
    }

    /// Whether no position is active.
    pub fn is_empty(&self) -> (r: bool)
        requires
            self.wf(),
        ensures
            r == (forall|c: CoordVec<N, DT>| !self@.contains_key(c)),
    {
        let r = self.index.is_empty();
        proof {
            if r {
                assert forall|c: CoordVec<N, DT>| !self@.contains_key(c) by {
                    if self@.contains_key(c) {
                        let i = slot_of(self.entries(), c);
                        assert(holds(self.entries(), i, c));
                        assert(self.slots@[i] is Some);
                        assert(listed(self.index@, key_of(self.slots@[i]->0.position), i as usize));
                    }
                }
            } else {
                if forall|k: u64| !self.index@.dom().contains(k) {
                    assert(self.index@.dom() =~= Set::<u64>::empty());
                }
                let k = choose|k: u64| self.index@.dom().contains(k);
                assert(self.index@.contains_key(k));
                let j = self.index@[k]@[0];
                assert(self.index@[k]@.contains(j));
                assert(listed(self.index@, k, j));
                let p = self.slots@[j as int]->0.position;
                assert(self.entries()[j as int] == entry_of(self.slots@[j as int]));
                assert(holds(self.entries(), j as int, p));
                assert(self@.contains_key(p));
            }
        }
        r
    }

    /// The slot that holds `coord`, if it is active.
    pub fn find(&self, coord: CoordVec<N, DT>) -> (r: Option<usize>)
        requires
            self.wf(),
            coord.wf(),
        ensures
            match r {
                Some(i) => holds(self.entries(), i as int, coord),
                None => !self@.contains_key(coord),
            },
    {
        let k = key(coord);
        match self.index.get(&k) {
            Some(bucket) => {
                let mut at: usize = 0;
                while at < bucket.len()
                    invariant
                        at <= bucket.len(),
                        self.wf(),
                        coord.wf(),
                        k == key_of(coord),
                        self.index@.contains_key(k),
                        *bucket == self.index@[k],
                        forall|a: int|
                            0 <= a < at ==> !holds(self.entries(), (#[trigger] bucket@[a]) as int, coord),
                    decreases bucket.len() - at,
                {
                    let i = bucket[at];
                    assert(bucket@.contains(i));
                    assert(listed(self.index@, k, i));
                    match &self.slots[i] {
                        Some(c) => {
                            if c.position.equals(coord) {
                                assert(self.entries()[i as int] == entry_of(self.slots@[i as int]));
                                return Some(i);
                            }
                            assert(self.entries()[i as int] == entry_of(self.slots@[i as int]));
                        },
                        None => {
                            assert(self.entries()[i as int] == entry_of(self.slots@[i as int]));
                        },
                    }
                    at += 1;
                }
                proof {
                    if self@.contains_key(coord) {
                        let i = slot_of(self.entries(), coord);
                        assert(holds(self.entries(), i, coord));
                        assert(i < self.slots.len());
                        assert(self.entries()[i] == entry_of(self.slots@[i]));
                        assert(self.slots@[i] is Some);
                        assert(listed(self.index@, k, i as usize));
                        let a = choose|a: int| 0 <= a < bucket@.len() && bucket@[a] == i as usize;
                        assert(!holds(self.entries(), bucket@[a] as int, coord));
                    }
                }
                None
            },
            None => {
                proof {
                    if self@.contains_key(coord) {
                        let i = slot_of(self.entries(), coord);
                        assert(holds(self.entries(), i, coord));
                        assert(i < self.slots.len());
                        assert(self.entries()[i] == entry_of(self.slots@[i]));
                        assert(self.slots@[i] is Some);
                        assert(listed(self.index@, k, i as usize));
                    }
                }
                None
            },
        }
    }

    /// The position held by slot `i`, if the slot holds one.
    pub fn position_at(&self, i: usize) -> (r: Option<CoordVec<N, DT>>)
        ensures
            match r {
                Some(p) => holds(self.entries(), i as int, p),
                None => i >= self.entries().len() || self.entries()[i as int] is None,
            },
    {
        if i >= self.slots.len() {
            return None;
        }
        match &self.slots[i] {
            Some(c) => Some(c.position),
            None => None,
        }
    }

    /// The container in slot `i`, if the slot holds one.
    pub fn container_at(&self, i: usize) -> (r: Option<&Container<N, C, DT>>)
        ensures
            match r {
                Some(c) => i < self.entries().len() && self.entries()[i as int] == filled(
                    c.position,
                    c.chunk,
                ),
                None => i >= self.entries().len() || self.entries()[i as int] is None,
            },
    {
        if i >= self.slots.len() {
            return None;
        }
        match &self.slots[i] {
            Some(c) => Some(c),
            None => None,
        }
    }

    /// The chunk stored under `coord`, if the position is active.
    pub fn get(&self, coord: CoordVec<N, DT>) -> (r: Option<&C>)
        requires
            self.wf(),
            coord.wf(),
        ensures
            match r {
                Some(chunk) => self@.contains_key(coord) && *chunk == self@[coord],
                None => !self@.contains_key(coord),
            },
    {
        match self.find(coord) {
            Some(i) => {
                proof {
                    lemma_active_at(self.entries(), i as int);
                }
                match &self.slots[i] {
                    Some(c) => Some(&c.chunk),
                    None => None,
                }
            },
            None => None,
        }
    }

    /// The chunk in slot `i`, to be changed in place, if the slot holds one.
    pub fn chunk_at_mut(&mut self, i: usize) -> (r: Option<&mut C>)
        requires
            old(self).wf(),
        ensures
            r is Some <==> i < old(self).entries().len() && old(self).entries()[i as int] is Some,
            r matches Some(chunk) ==> *chunk == old(self).entries()[i as int]->0.value,
            r matches Some(chunk) ==> final(self).entries() == old(self).entries().update(
                i as int,
                filled(old(self).entries()[i as int]->0.key, *final(chunk)),
            ),
            r matches Some(chunk) ==> (*final(self))@ == (*old(self))@.insert(
                old(self).entries()[i as int]->0.key,
                *final(chunk),
            ),
            r is None ==> final(self).entries() == old(self).entries(),
            final(self).wf(),
            final(self).vacant() == old(self).vacant(),
    {
        if i >= self.slots.len() {
            return None;
        }
        if self.slots[i].is_none() {
            return None;
        }
        proof {
            let before = *self;
            assert forall|after: Self|
                #![trigger after.wf()]
                #![trigger after.entries()]
                before.same_but_chunk(after, i as int) implies after.wf() && before.chunk_changed(
                after,
                i as int,
            ) by {
                before.lemma_chunk_changed(after, i as int);
            }
            assert(self.entries()[i as int] == entry_of(self.slots@[i as int]));
        }
        match &mut self.slots[i] {
            Some(c) => Some(&mut c.chunk),
            None => None,
        }
    }

    /// The chunk stored under `coord`, to be changed in place, if the position is active.
    pub fn get_mut(&mut self, coord: CoordVec<N, DT>) -> (r: Option<&mut C>)
        requires
            old(self).wf(),
            coord.wf(),
        ensures
            r is Some <==> old(self)@.contains_key(coord),
            r matches Some(chunk) ==> {
                &&& *chunk == old(self)@[coord]
                &&& final(self).entries() == old(self).entries().update(
                    slot_of(old(self).entries(), coord),
                    filled(coord, *final(chunk)),
                )
                &&& final(self)@ == old(self)@.insert(coord, *final(chunk))
            },
            r is None ==> final(self).entries() == old(self).entries(),
            final(self).wf(),
            final(self).vacant() == old(self).vacant(),
    {
        match self.find(coord) {
            Some(i) => {
                proof {
                    lemma_active_at(self.entries(), i as int);
                }
                self.chunk_at_mut(i)
            },
            None => None,
        }
    }

    /// `after` differs from `self` at most in the chunk that slot `i` holds.
    spec fn same_but_chunk(self, after: Self, i: int) -> bool {
        &&& 0 <= i < self.slots@.len()
        &&& self.slots@[i] is Some
        &&& after.slots@.len() == self.slots@.len()
        &&& after.slots@[i] is Some
        &&& after.slots@[i]->0.position == self.slots@[i]->0.position
        &&& forall|j: int| 0 <= j < self.slots@.len() && j != i ==> after.slots@[j] == self.slots@[j]
        &&& after.free@ == self.free@
        &&& after.index@ == self.index@
    }

    /// The slots and the map of `after` are those of `self` with the chunk of slot `i`
    /// replaced.
    spec fn chunk_changed(self, after: Self, i: int) -> bool {
        &&& after.entries()[i] is Some
        &&& after.entries()[i]->0.value == after.slots@[i]->0.chunk
        &&& after.entries() == self.entries().update(
            i,
            filled(self.entries()[i]->0.key, after.slots@[i]->0.chunk),
        )
        &&& active_map(after.entries()) == active_map(self.entries()).insert(
            self.entries()[i]->0.key,
            after.slots@[i]->0.chunk,
        )
    }

    /// An arena that differs from a well-formed one only in the chunk of one slot is well
    /// formed, and its map differs in the chunk of that slot's position.
    proof fn lemma_chunk_changed(self, after: Self, i: int)
        requires
            self.wf(),
            self.same_but_chunk(after, i),
        ensures
            after.wf(),
            self.chunk_changed(after, i),
    {
        let chunk = after.slots@[i]->0.chunk;
        assert(self.entries()[i] == entry_of(self.slots@[i]));
        assert(after.entries()[i] == entry_of(after.slots@[i]));
        assert(after.entries() =~= self.entries().update(
            i,
            filled(self.entries()[i]->0.key, chunk),
        ));
        lemma_replace(self.entries(), i, chunk);
        assert forall|j: int|
            0 <= j < after.slots@.len() && (#[trigger] after.slots@[j]) is Some implies listed(
            after.index@,
            key_of(after.slots@[j]->0.position),
            j as usize,
        ) by {
            assert(self.slots@[j] is Some);
        }
        assert forall|j: int|
            0 <= j < after.slots@.len() && (
            #[trigger] after.slots@[j]) is Some implies after.slots@[j]->0.position.wf() by {
            assert(self.slots@[j] is Some);
        }
        assert forall|j: int|
            0 <= j < after.slots@.len() && (
            #[trigger] after.slots@[j]) is None implies after.free@.contains(
            j as usize,
        ) by {
            assert(self.slots@[j] is None);
        }
        assert forall|a: int| 0 <= a < after.free@.len() implies (#[trigger] after.free@[a])
            < after.slots@.len() && after.slots@[after.free@[a] as int] is None by {
            assert(self.slots@[self.free@[a] as int] is None);
        }
        assert forall|k: u64, j: usize| #[trigger]
            listed(after.index@, k, j) implies j < after.slots@.len() && after.slots@[j as int] is Some
            && key_of(after.slots@[j as int]->0.position) == k by {
            assert(listed(self.index@, k, j));
        }
    }

    /// Stores `chunk` under `coord`, in an empty slot if there is one and in a new slot
    /// otherwise, and gives the slot. A position that is active already is refused.
    pub fn insert(&mut self, coord: CoordVec<N, DT>, chunk: C) -> (r: Result<usize, ArenaError>)
        requires
            old(self).wf(),
            coord.wf(),
        ensures
            final(self).wf(),
            match r {
                Ok(i) => {
                    &&& !old(self)@.contains_key(coord)
                    &&& final(self)@ == old(self)@.insert(coord, chunk)
                    &&& holds(final(self).entries(), i as int, coord)
                    &&& if old(self).vacant().len() > 0 {
                        &&& i == old(self).vacant().last()
                        &&& i < old(self).entries().len()
                        &&& final(self).vacant() == old(self).vacant().drop_last()
                        &&& final(self).entries() == old(self).entries().update(
                            i as int,
                            filled(coord, chunk),
                        )
                    } else {
                        &&& i == old(self).entries().len()
                        &&& final(self).vacant() == old(self).vacant()
                        &&& final(self).entries() == old(self).entries().push(filled(coord, chunk))
                    }
                },
                Err(e) => {
                    &&& e == ArenaError::Duplicate
                    &&& old(self)@.contains_key(coord)
                    &&& final(self).entries() == old(self).entries()
                    &&& final(self).vacant() == old(self).vacant()
                },
            },
    {
        if self.find(coord).is_some() {
            return Err(ArenaError::Duplicate);
        }
        let k = key(coord);
        let ghost before = self.entries();
        let ghost slots_before = self.slots@;
        match self.free.pop() {
            Some(i) => {
                assert(old(self).free@.last() == i);
                assert(slots_before[i as int] is None);
                assert(before[i as int] is None);
                self.slots[i] = Some(Container { chunk, position: coord });
                index_add(&mut self.index, k, i);
                proof {
                    assert(self.entries() =~= before.update(i as int, filled(coord, chunk)));
                    lemma_fill(before, i as int, coord, chunk);
                    assert forall|a: int| 0 <= a < self.free@.len() implies (#[trigger] self.free@[a])
                        < self.slots@.len() && self.slots@[self.free@[a] as int] is None by {
                        assert(self.free@[a] == old(self).free@[a]);
                        assert(old(self).free@[a] != old(self).free@[old(self).free@.len() - 1]);
                    }
                    assert forall|j: int|
                        0 <= j < self.slots@.len() && (
                        #[trigger] self.slots@[j]) is None implies self.free@.contains(
                        j as usize,
                    ) by {
                        assert(j < self.slots.len());
                        assert(j != i);
                        assert(slots_before[j] is None);
                        assert(old(self).free@.contains(j as usize));
                        let a = choose|a: int|
                            0 <= a < old(self).free@.len() && old(self).free@[a] == j as usize;
                        assert(a != old(self).free@.len() - 1);
                        assert(self.free@[a] == j as usize);
                    }
                    assert(self.free@ =~= old(self).free@.drop_last());
                }
                Ok(i)
            },
            None => {
                let i = self.slots.len();
                self.slots.push(Some(Container { chunk, position: coord }));
                index_add(&mut self.index, k, i);
                proof {
                    assert(self.entries() =~= before.push(filled(coord, chunk)));
                    lemma_push(before, coord, chunk);
                }
                Ok(i)
            },
        }
    }

    /// Takes the chunk stored under `coord` out of the arena, leaving its slot empty.
    pub fn remove(&mut self, coord: CoordVec<N, DT>) -> (r: Option<C>)
        requires
            old(self).wf(),
            coord.wf(),
        ensures
            final(self).wf(),
            match r {
                Some(chunk) => {
                    &&& old(self)@.contains_key(coord)
                    &&& chunk == old(self)@[coord]
                    &&& final(self)@ == old(self)@.remove(coord)
                    &&& final(self).entries() == old(self).entries().update(
                        slot_of(old(self).entries(), coord),
                        None,
                    )
                    &&& final(self).vacant() == old(self).vacant().push(
                        slot_of(old(self).entries(), coord) as usize,
                    )
                },
                None => {
                    &&& !old(self)@.contains_key(coord)
                    &&& final(self).entries() == old(self).entries()
                    &&& final(self).vacant() == old(self).vacant()
                },
            },
    {
        match self.find(coord) {
            Some(i) => {
                let k = key(coord);
                let ghost before = self.entries();
                let ghost slots_before = self.slots@;
                proof {
                    lemma_active_at(before, i as int);
                }
                let mut taken = None;
                std::mem::swap(&mut self.slots[i], &mut taken);
                self.free.push(i);
                index_drop(&mut self.index, k, i);
                proof {
                    assert(self.slots@ =~= slots_before.update(i as int, None));
                    assert(before[i as int] == entry_of(slots_before[i as int]));
                    assert(slots_before[i as int]->0.position == coord);
                    assert(self.entries() =~= before.update(i as int, None));
                    lemma_clear(before, i as int);
                    assert forall|j: int|
                        0 <= j < self.slots@.len() && (#[trigger] self.slots@[j]) is Some implies listed(
                        self.index@,
                        key_of(self.slots@[j]->0.position),
                        j as usize,
                    ) by {
                        assert(j < self.slots.len());
                        assert(j != i);
                        assert(slots_before[j] is Some);
                        assert(listed(
                            old(self).index@,
                            key_of(slots_before[j]->0.position),
                            j as usize,
                        ));
                    }
                    assert forall|k2: u64, i2: usize| #[trigger]
                        listed(self.index@, k2, i2) implies i2 < self.slots@.len()
                        && self.slots@[i2 as int] is Some && key_of(
                        self.slots@[i2 as int]->0.position,
                    ) == k2 by {
                        assert(listed(old(self).index@, k2, i2));
                    }
                    assert forall|a: int| 0 <= a < self.free@.len() implies (#[trigger] self.free@[a])
                        < self.slots@.len() && self.slots@[self.free@[a] as int] is None by {
                        if a < old(self).free@.len() {
                            assert(self.free@[a] == old(self).free@[a]);
                        }
                    }
                    assert(self.free@.no_duplicates()) by {
                        assert forall|a: int, b: int|
                            0 <= a < self.free@.len() && 0 <= b < self.free@.len() && a
                                != b implies self.free@[a] != self.free@[b] by {
                            if a < old(self).free@.len() {
                                assert(self.free@[a] == old(self).free@[a]);
                                assert(slots_before[old(self).free@[a] as int] is None);
                            }
                            if b < old(self).free@.len() {
                                assert(self.free@[b] == old(self).free@[b]);
                                assert(slots_before[old(self).free@[b] as int] is None);
                            }
                        }
                    }
                    assert forall|j: int|
                        0 <= j < self.slots@.len() && (
                        #[trigger] self.slots@[j]) is None implies self.free@.contains(
                        j as usize,
                    ) by {
                        assert(j < self.slots.len());
                        if j == i {
                            assert(self.free@[self.free@.len() - 1] == i);
                        } else {
                            assert(slots_before[j] is None);
                            assert(old(self).free@.contains(j as usize));
                            let a = choose|a: int|
                                0 <= a < old(self).free@.len() && old(self).free@[a] == j as usize;
                            assert(self.free@[a] == j as usize);
                        }
                    }
                }
                match taken {
                    Some(c) => Some(c.chunk),
                    None => None,
                }
            },
            None => None,
        }
    }

    /// Moves the chunks to the front of the storage in their order, leaving no empty slot.
    pub fn defragment(&mut self)
        requires
            old(self).wf(),
        ensures
            final(self).wf(),
            final(self).entries() == compact(old(self).entries()),
            final(self).vacant() == Seq::<usize>::empty(),
            final(self)@ == old(self)@,
    {
        let ghost before = self.entries();
        let mut dense: Vec<Option<Container<N, C, DT>>> = Vec::new();
        let mut index: HashMap<u64, Vec<usize>> = HashMap::new();
        let mut from: usize = 0;
        let ghost start = self.slots@;
        assert(before.take(0) =~= Seq::empty());
        while from < self.slots.len()
            invariant
                from <= self.slots.len(),
                self.slots@.len() == start.len(),
                positions_ok(start),
                before == start.map_values(|e: Option<Container<N, C, DT>>| entry_of(e)),
                forall|j: int| from <= j < start.len() ==> self.slots@[j] == start[j],
                dense@.map_values(|e: Option<Container<N, C, DT>>| entry_of(e)) == compact(
                    before.take(from as int),
                ),
                forall|j: int| 0 <= j < dense@.len() ==> (#[trigger] dense@[j]) is Some,
                positions_ok(dense@),
                index_ok(dense@, index@),
            decreases self.slots.len() - from,
        {
            let mut taken = None;
            std::mem::swap(&mut self.slots[from], &mut taken);
            proof {
                let upto = before.take(from + 1);
                assert(upto.drop_last() =~= before.take(from as int));
                assert(upto.last() == entry_of(start[from as int]));
            }
            match taken {
                Some(c) => {
                    let k = key(c.position);
                    let to = dense.len();
                    let ghost dense_before = dense@;
                    dense.push(Some(c));
                    index_add(&mut index, k, to);
                    assert(dense@.map_values(|e: Option<Container<N, C, DT>>| entry_of(e))
                        =~= dense_before.map_values(
                        |e: Option<Container<N, C, DT>>| entry_of(e),
                    ).push(entry_of(start[from as int])));
                },
                None => {},
            }
            from += 1;
        }
        assert(before.take(from as int) =~= before);
        self.slots = dense;
        self.free = Vec::new();
        self.index = index;
        proof {
            lemma_compact(before);
        }
    }
}

} // verus!
